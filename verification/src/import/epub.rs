//! The decisions of the EPUB import: titles, navigation, archive paths and
//! the escaping of the Markdown it writes. Reading the archive and parsing
//! its XML happen outside this module.
use vstd::prelude::*;
use crate::dictionary::lookup_state::{
    opt_view, spec_trim, split_char, split_pieces, trim_chars, trim_start,
};
use crate::html::is_ascii_ws;
use vstd::utf8::{decode_utf8, encode_utf8, valid_utf8};
use crate::text::{
    chars_of, is_whitespace, lowercased, regex_compiles, regex_found, regex_is_match,
    regex_replace_all, regex_replaced, spec_is_whitespace, str_eq, string_from_chars,
    to_lowercase, ascii_lowered, eq_ignore_ascii_case,
};

verus! {

/// A book read from an EPUB archive, as Markdown with its resources.
#[derive(Debug, PartialEq, Eq)]
pub struct ImportedEpub {
    pub source_name: String,
    pub title: String,
    pub author: String,
    pub date: String,
    pub language: String,
    pub markdown: String,
    pub chapter_titles: Vec<String>,
    pub resources: Vec<ImportedEpubResource>,
    pub warnings: Vec<String>,
}

/// An image of the book with its media type and, when known, its size.
#[derive(Debug, PartialEq, Eq)]
pub struct ImportedEpubResource {
    pub href: String,
    pub media_type: String,
    pub width: Option<u32>,
    pub height: Option<u32>,
    pub bytes: Vec<u8>,
}

/// A navigation target: a title, an archive path and an optional fragment.
#[derive(Debug, PartialEq, Eq)]
pub struct NavigationEntry {
    pub title: String,
    pub path: String,
    pub fragment: Option<String>,
}

/// What a spine document is for, as read from its manifest entry and content.
#[derive(Debug, Clone, Copy, PartialEq, Eq, Structural)]
pub enum DocumentRole {
    Cover,
    Illustration,
    Toc,
    Notice,
    TitlePage,
    Backmatter,
    Content,
}

/// Counts taken from a spine document's body.
#[derive(Debug, Clone, Copy, PartialEq, Eq, Structural)]
pub struct DocumentMetrics {
    pub text_chars: usize,
    pub links: usize,
    pub images: usize,
    pub headings: usize,
}

/// A document of the spine with its archive path, its XHTML source, its role and counts.
#[derive(Debug, PartialEq, Eq)]
pub struct SpineDocument {
    pub path: String,
    pub xhtml: String,
    pub role: DocumentRole,
    pub metrics: DocumentMetrics,
}

pub open spec fn nav_view(e: NavigationEntry) -> (Seq<char>, Seq<char>, Option<Seq<char>>) {
    (e.title@, e.path@, opt_view(e.fragment))
}

pub open spec fn navs_view(v: Seq<NavigationEntry>) -> Seq<(Seq<char>, Seq<char>, Option<Seq<char>>)> {
    v.map_values(|e: NavigationEntry| nav_view(e))
}

/// `s` without its whitespace characters.
pub open spec fn without_whitespace(s: Seq<char>) -> Seq<char>
    decreases s.len(),
{
    if s.len() == 0 {
        s
    } else if spec_is_whitespace(s.last()) {
        without_whitespace(s.drop_last())
    } else {
        without_whitespace(s.drop_last()).push(s.last())
    }
}

/// The number of maximal runs of whitespace in `s`.
pub open spec fn whitespace_runs(s: Seq<char>) -> nat
    decreases s.len(),
{
    if s.len() == 0 {
        0
    } else {
        whitespace_runs(s.drop_last()) + if spec_is_whitespace(s.last()) && (s.len() == 1
            || !spec_is_whitespace(s[s.len() - 2])) {
            1nat
        } else {
            0nat
        }
    }
}

/// A title letter-spaced for display ("プ ロ ロ ー グ") joined up: when at
/// least three characters are visible and at least two, and at least half, of
/// the gaps between them are spaces, the spaces go; otherwise only the ends are trimmed.
pub open spec fn spaced_title(input: Seq<char>) -> Seq<char> {
    let t = spec_trim(input);
    let visible = without_whitespace(t).len();
    let gaps = whitespace_runs(t);
    if visible < 3 {
        t
    } else if gaps >= 2 && gaps * 2 >= visible - 1 {
        without_whitespace(t)
    } else {
        t
    }
}

pub fn normalize_spaced_title(input: &str) -> (r: String)
    ensures
        r@ == spaced_title(input@),
{
    let chars = chars_of(input);
    let trimmed = trim_chars(chars.as_slice());
    let mut visible: Vec<char> = Vec::new();
    let mut gaps: usize = 0;
    let mut i: usize = 0;
    while i < trimmed.len()
        invariant
            i <= trimmed.len(),
            visible@ == without_whitespace(trimmed@.take(i as int)),
            gaps == whitespace_runs(trimmed@.take(i as int)),
            gaps <= i,
        decreases trimmed.len() - i,
    {
        let ghost t = trimmed@.take(i + 1);
        assert(t.drop_last() == trimmed@.take(i as int));
        if is_whitespace(trimmed[i]) {
            if i == 0 || !is_whitespace(trimmed[i - 1]) {
                assert(i > 0 ==> t[t.len() - 2] == trimmed@[i - 1]);
                gaps += 1;
            }
        } else {
            visible.push(trimmed[i]);
        }
        i += 1;
    }
    assert(trimmed@.take(trimmed.len() as int) == trimmed@);
    if visible.len() < 3 {
        return string_from_chars(trimmed.as_slice());
    }
    if gaps >= 2 && (gaps >= visible.len() - 1 || gaps >= (visible.len() - 1) - gaps) {
        string_from_chars(visible.as_slice())
    } else {
        string_from_chars(trimmed.as_slice())
    }
}

/// The ruby annotations a heading may carry, as the importer writes them.
pub open spec fn ruby_pattern() -> Seq<char> {
    "《[^》]+》"@
}

/// Runs of dash-like characters.
pub open spec fn dash_pattern() -> Seq<char> {
    "[-‐‑‒–—―─━]+"@
}

/// The chapter markers a navigation title may carry.
pub open spec fn chapter_pattern() -> Seq<char> {
    "(?i)(序章|終章|間章|外伝|付録|おまけ|あとがき|プロローグ|エピローグ|最終話|第[0-9０-９一二三四五六七八九十百]+[章話部]|^[0-9０-９一二三四五六七八九十百]+章|chapter|prologue|epilogue|afterword)"@
}

/// A regex replacement, or the text unchanged when the pattern does not compile.
pub open spec fn replaced_or_same(pattern: Seq<char>, haystack: Seq<char>, replacement: Seq<char>) -> Seq<char> {
    if regex_compiles(pattern) {
        regex_replaced(pattern, haystack, replacement)
    } else {
        haystack
    }
}

/// The key under which two headings count as the same: ruby removed, dash
/// runs unified, whitespace removed, lowercased.
pub open spec fn heading_key(value: Seq<char>) -> Seq<char> {
    let without_ruby = replaced_or_same(ruby_pattern(), value, seq![]);
    let dashes = replaced_or_same(dash_pattern(), without_ruby, "-"@);
    lowercased(without_whitespace(dashes))
}

fn replace_or_keep(pattern: &str, haystack: &str, replacement: &str) -> (r: String)
    ensures
        r@ == replaced_or_same(pattern@, haystack@, replacement@),
{
    match regex_replace_all(pattern, haystack, replacement) {
        Some(s) => s,
        None => haystack.to_owned(),
    }
}

fn remove_whitespace(s: &[char]) -> (r: Vec<char>)
    ensures
        r@ == without_whitespace(s@),
{
    let mut out: Vec<char> = Vec::new();
    let mut i: usize = 0;
    while i < s.len()
        invariant
            i <= s.len(),
            out@ == without_whitespace(s@.take(i as int)),
        decreases s.len() - i,
    {
        assert(s@.take(i + 1).drop_last() == s@.take(i as int));
        if !is_whitespace(s[i]) {
            out.push(s[i]);
        }
        i += 1;
    }
    assert(s@.take(s.len() as int) == s@);
    out
}

pub fn normalize_heading_key(value: &str) -> (r: String)
    ensures
        r@ == heading_key(value@),
{
    let without_ruby = replace_or_keep("《[^》]+》", value, "");
    proof {
        assert(""@ =~= Seq::<char>::empty()) by {
            reveal_strlit("");
        }
    }
    let dashes = replace_or_keep("[-‐‑‒–—―─━]+", without_ruby.as_str(), "-");
    let compact = remove_whitespace(chars_of(dashes.as_str()).as_slice());
    let joined = string_from_chars(compact.as_slice());
    to_lowercase(joined.as_str())
}

/// Whether two headings name the same thing.
pub fn heading_equivalent(left: &str, right: &str) -> (r: bool)
    ensures
        r == (heading_key(left@) == heading_key(right@)),
{
    let a = normalize_heading_key(left);
    let b = normalize_heading_key(right);
    str_eq(a.as_str(), b.as_str())
}

/// The heading keys of navigation titles that name no chapter.
pub open spec fn structural_keys() -> Seq<Seq<char>> {
    seq![
        "目次"@, "もくじ"@, "contents"@, "tableofcontents"@, "表紙"@, "cover"@, "扉"@, "扉絵"@,
        "titlepage"@, "frontispiece"@, "本文"@, "start"@, "beginreading"@,
    ]
}

pub open spec fn is_structural_title(title: Seq<char>) -> bool {
    structural_keys().contains(heading_key(title))
}

fn key_in(key: &str, keys: &Vec<&str>) -> (b: bool)
    ensures
        b == keys@.map_values(|k: &str| k@).contains(key@),
{
    let ghost kv = keys@.map_values(|k: &str| k@);
    let mut i: usize = 0;
    while i < keys.len()
        invariant
            i <= keys.len(),
            kv == keys@.map_values(|k: &str| k@),
            forall|m: int| 0 <= m < i ==> kv[m] != key@,
        decreases keys.len() - i,
    {
        if str_eq(key, keys[i]) {
            assert(kv[i as int] == key@);
            return true;
        }
        i += 1;
    }
    false
}

/// Whether a navigation title names a table of contents, a cover, a title page or the like.
pub fn is_structural_navigation_title(title: &str) -> (b: bool)
    ensures
        b == is_structural_title(title@),
{
    let key = normalize_heading_key(title);
    let keys: Vec<&str> = vec![
        "目次", "もくじ", "contents", "tableofcontents", "表紙", "cover", "扉", "扉絵",
        "titlepage", "frontispiece", "本文", "start", "beginreading",
    ];
    assert(keys@.map_values(|k: &str| k@) =~= structural_keys());
    key_in(key.as_str(), &keys)
}

/// Whether a navigation title names a table of contents.
pub fn is_toc_title(title: &str) -> (b: bool)
    ensures
        b == seq!["目次"@, "もくじ"@, "contents"@].contains(heading_key(title@)),
{
    let key = normalize_heading_key(title);
    let keys: Vec<&str> = vec!["目次", "もくじ", "contents"];
    assert(keys@.map_values(|k: &str| k@) =~= seq!["目次"@, "もくじ"@, "contents"@]);
    key_in(key.as_str(), &keys)
}

/// Whether a navigation title names the colophon.
pub fn is_colophon_title(title: &str) -> (b: bool)
    ensures
        b == seq!["奥付"@, "colophon"@].contains(heading_key(title@)),
{
    let key = normalize_heading_key(title);
    let keys: Vec<&str> = vec!["奥付", "colophon"];
    assert(keys@.map_values(|k: &str| k@) =~= seq!["奥付"@, "colophon"@]);
    key_in(key.as_str(), &keys)
}

/// Whether a title carries a chapter marker (false when the pattern does not compile).
pub open spec fn chapter_like(title: Seq<char>) -> bool {
    regex_compiles(chapter_pattern()) && regex_found(chapter_pattern(), title)
}

/// Numbered chapter markers are recognised with kanji numerals as well as
/// digits: among the alternatives of the chapter pattern is 第, then one or
/// more characters of a class, then 章, 話 or 部; the class starts with the
/// ASCII and full-width digit ranges and holds each kanji numeral 一 to 十 and 百.
/// Likewise, a title that opens with such numerals and 章 is one alternative.
pub proof fn law_kanji_numbered_chapters(c: char)
    requires
        "一二三四五六七八九十百"@.contains(c),
    ensures
        exists|i: int, j: int|
            #![trigger chapter_pattern().subrange(i, j)]
            3 <= i <= j && j + 8 <= chapter_pattern().len() && chapter_pattern()[i - 3] == '|'
                && chapter_pattern().subrange(i - 2, i) == "第["@ && chapter_pattern().subrange(j, j + 8)
                == "]+[章話部]|"@ && chapter_pattern().subrange(i, i + 6) == "0-9０-９"@
                && chapter_pattern().subrange(i, j).contains(c) && !chapter_pattern().subrange(i, j).contains(']'),
        exists|i: int, j: int|
            #![trigger chapter_pattern().subrange(i, j)]
            3 <= i <= j && j + 4 <= chapter_pattern().len() && chapter_pattern()[i - 3] == '|'
                && chapter_pattern().subrange(i - 2, i) == "^["@ && chapter_pattern().subrange(j, j + 4) == "]+章|"@
                && chapter_pattern().subrange(i, i + 6) == "0-9０-９"@ && chapter_pattern().subrange(i, j).contains(c)
                && !chapter_pattern().subrange(i, j).contains(']'),
{
    reveal_strlit("一二三四五六七八九十百");
    reveal_strlit("第[");
    reveal_strlit("]+[章話部]|");
    reveal_strlit("0-9０-９");
    reveal_strlit("^[");
    reveal_strlit("]+章|");
    reveal_strlit("(?i)(序章|終章|間章|外伝|付録|おまけ|あとがき|プロローグ|エピローグ|最終話|第[0-9０-９一二三四五六七八九十百]+[章話部]|^[0-9０-９一二三四五六七八九十百]+章|chapter|prologue|epilogue|afterword)");
    let p = chapter_pattern();
    let kanji = "一二三四五六七八九十百"@;
    let class = p.subrange(47, 64);
    let t = choose|t: int| 0 <= t < kanji.len() && kanji[t] == c;
    assert(class[6 + t] == kanji[t]);
    assert(p.subrange(45, 47) =~= "第["@);
    assert(p[44] == '|');
    assert(p.subrange(64, 72) =~= "]+[章話部]|"@);
    assert(p.subrange(47, 53) =~= "0-9０-９"@);
    assert(class.contains(c));
    assert(p.subrange(47, 64).contains(c));
    let opening = p.subrange(74, 91);
    assert(opening[6 + t] == kanji[t]);
    assert(p.subrange(72, 74) =~= "^["@);
    assert(p[71] == '|');
    assert(p.subrange(91, 95) =~= "]+章|"@);
    assert(p.subrange(74, 80) =~= "0-9０-９"@);
    assert(opening.contains(c));
    assert(!opening.contains(']'));
}

/// Named chapter markers are recognised whatever their case: the chapter
/// pattern is one case-insensitive group of alternatives, and each of the
/// words 序章, 終章, 間章, 外伝, 付録, おまけ, あとがき, プロローグ, エピローグ,
/// 最終話, chapter, prologue, epilogue and afterword is one of them.
pub proof fn law_named_chapter_markers(w: Seq<char>)
    requires
        w == "序章"@ || w == "終章"@ || w == "間章"@ || w == "外伝"@ || w == "付録"@ || w == "おまけ"@ ||
            w == "あとがき"@ || w == "プロローグ"@ || w == "エピローグ"@ || w == "最終話"@ || w == "chapter"@ ||
            w == "prologue"@ || w == "epilogue"@ || w == "afterword"@,
    ensures
        chapter_pattern().subrange(0, 5) == "(?i)("@,
        chapter_pattern().last() == ')',
        exists|i: int|
            #![trigger chapter_pattern().subrange(i, i + w.len())]
            5 <= i && i + w.len() < chapter_pattern().len() && (chapter_pattern()[i - 1] == '('
                || chapter_pattern()[i - 1] == '|') && (chapter_pattern()[i + w.len()] == '|'
                || chapter_pattern()[i + w.len()] == ')') && chapter_pattern().subrange(i, i + w.len()) == w,
{
    reveal_strlit("(?i)(");
    reveal_strlit("序章");
    reveal_strlit("終章");
    reveal_strlit("間章");
    reveal_strlit("外伝");
    reveal_strlit("付録");
    reveal_strlit("おまけ");
    reveal_strlit("あとがき");
    reveal_strlit("プロローグ");
    reveal_strlit("エピローグ");
    reveal_strlit("最終話");
    reveal_strlit("chapter");
    reveal_strlit("prologue");
    reveal_strlit("epilogue");
    reveal_strlit("afterword");
    reveal_strlit("(?i)(序章|終章|間章|外伝|付録|おまけ|あとがき|プロローグ|エピローグ|最終話|第[0-9０-９一二三四五六七八九十百]+[章話部]|^[0-9０-９一二三四五六七八九十百]+章|chapter|prologue|epilogue|afterword)");
    let p = chapter_pattern();
    assert(p.subrange(0, 5) =~= "(?i)("@);
    if w == "序章"@ {
        assert(p.subrange(5, 5int + w.len()) =~= w);
        assert(p[4] == '(' && p[7] == '|');
    } else if w == "終章"@ {
        assert(p.subrange(8, 8int + w.len()) =~= w);
        assert(p[7] == '|' && p[10] == '|');
    } else if w == "間章"@ {
        assert(p.subrange(11, 11int + w.len()) =~= w);
        assert(p[10] == '|' && p[13] == '|');
    } else if w == "外伝"@ {
        assert(p.subrange(14, 14int + w.len()) =~= w);
        assert(p[13] == '|' && p[16] == '|');
    } else if w == "付録"@ {
        assert(p.subrange(17, 17int + w.len()) =~= w);
        assert(p[16] == '|' && p[19] == '|');
    } else if w == "おまけ"@ {
        assert(p.subrange(20, 20int + w.len()) =~= w);
        assert(p[19] == '|' && p[23] == '|');
    } else if w == "あとがき"@ {
        assert(p.subrange(24, 24int + w.len()) =~= w);
        assert(p[23] == '|' && p[28] == '|');
    } else if w == "プロローグ"@ {
        assert(p.subrange(29, 29int + w.len()) =~= w);
        assert(p[28] == '|' && p[34] == '|');
    } else if w == "エピローグ"@ {
        assert(p.subrange(35, 35int + w.len()) =~= w);
        assert(p[34] == '|' && p[40] == '|');
    } else if w == "最終話"@ {
        assert(p.subrange(41, 41int + w.len()) =~= w);
        assert(p[40] == '|' && p[44] == '|');
    } else if w == "chapter"@ {
        assert(p.subrange(95, 95int + w.len()) =~= w);
        assert(p[94] == '|' && p[102] == '|');
    } else if w == "prologue"@ {
        assert(p.subrange(103, 103int + w.len()) =~= w);
        assert(p[102] == '|' && p[111] == '|');
    } else if w == "epilogue"@ {
        assert(p.subrange(112, 112int + w.len()) =~= w);
        assert(p[111] == '|' && p[120] == '|');
    } else if w == "afterword"@ {
        assert(p.subrange(121, 121int + w.len()) =~= w);
        assert(p[120] == '|' && p[130] == ')');
    }
}

pub fn looks_like_chapter_title(title: &str) -> (b: bool)
    ensures
        b == chapter_like(title@),
{
    match regex_is_match(
        "(?i)(序章|終章|間章|外伝|付録|おまけ|あとがき|プロローグ|エピローグ|最終話|第[0-9０-９一二三四五六七八九十百]+[章話部]|^[0-9０-９一二三四五六七八九十百]+章|chapter|prologue|epilogue|afterword)",
        title,
    ) {
        Some(found) => found,
        None => false,
    }
}

/// Two navigation entries lead to the same place: the same path up to ASCII
/// case, and the same fragment or equivalent titles.
pub open spec fn nav_equivalent(
    left: (Seq<char>, Seq<char>, Option<Seq<char>>),
    right: (Seq<char>, Seq<char>, Option<Seq<char>>),
) -> bool {
    ascii_lowered(left.1) == ascii_lowered(right.1) && (left.2 == right.2 || heading_key(left.0)
        == heading_key(right.0))
}

fn same_fragment(a: &Option<String>, b: &Option<String>) -> (r: bool)
    ensures
        r == (opt_view(*a) == opt_view(*b)),
{
    match (a, b) {
        (Some(x), Some(y)) => str_eq(x.as_str(), y.as_str()),
        (None, None) => true,
        _ => false,
    }
}

pub fn navigation_equivalent(left: &NavigationEntry, right: &NavigationEntry) -> (r: bool)
    ensures
        r == nav_equivalent(nav_view(*left), nav_view(*right)),
{
    eq_ignore_ascii_case(left.path.as_str(), right.path.as_str()) && (same_fragment(
        &left.fragment,
        &right.fragment,
    ) || heading_equivalent(left.title.as_str(), right.title.as_str()))
}

/// The first entry of `unique` equivalent to `e`.
pub open spec fn first_equivalent(
    unique: Seq<(Seq<char>, Seq<char>, Option<Seq<char>>)>,
    e: (Seq<char>, Seq<char>, Option<Seq<char>>),
) -> Option<int>
    decreases unique.len(),
{
    if unique.len() == 0 {
        None
    } else {
        match first_equivalent(unique.drop_last(), e) {
            Some(k) => Some(k),
            None => if nav_equivalent(unique.last(), e) {
                Some(unique.len() - 1)
            } else {
                None
            },
        }
    }
}

/// Navigation entries with equivalent ones merged, in order of first
/// appearance; a structural title gives way to a descriptive one for the same target.
pub open spec fn deduplicated(entries: Seq<(Seq<char>, Seq<char>, Option<Seq<char>>)>) -> Seq<
    (Seq<char>, Seq<char>, Option<Seq<char>>),
>
    decreases entries.len(),
{
    if entries.len() == 0 {
        seq![]
    } else {
        let unique = deduplicated(entries.drop_last());
        let e = entries.last();
        match first_equivalent(unique, e) {
            Some(k) => if is_structural_title(unique[k].0) && !is_structural_title(e.0) {
                unique.update(k, e)
            } else {
                unique
            },
            None => unique.push(e),
        }
    }
}

proof fn lemma_first_equivalent_range(
    unique: Seq<(Seq<char>, Seq<char>, Option<Seq<char>>)>,
    e: (Seq<char>, Seq<char>, Option<Seq<char>>),
)
    ensures
        match first_equivalent(unique, e) {
            Some(k) => 0 <= k < unique.len(),
            None => true,
        },
    decreases unique.len(),
{
    if unique.len() > 0 {
        lemma_first_equivalent_range(unique.drop_last(), e);
    }
}

pub fn deduplicate_navigation(entries: Vec<NavigationEntry>) -> (r: Vec<NavigationEntry>)
    ensures
        navs_view(r@) == deduplicated(navs_view(entries@)),
{
    let ghost all = navs_view(entries@);
    let mut pending = entries;
    let mut reversed: Vec<NavigationEntry> = Vec::new();
    while pending.len() > 0
        invariant
            all == navs_view(pending@) + navs_view(reversed@).reverse(),
        decreases pending.len(),
    {
        let t = pending.pop().unwrap();
        let ghost before = pending@;
        reversed.push(t);
        assert(navs_view(reversed@).reverse() =~= seq![nav_view(t)] + navs_view(reversed@.drop_last()).reverse());
        assert(navs_view(before.push(t)) =~= navs_view(before).push(nav_view(t)));
        assert(all =~= navs_view(pending@) + navs_view(reversed@).reverse());
    }
    assert(all =~= navs_view(reversed@).reverse());
    let mut unique: Vec<NavigationEntry> = Vec::new();
    let ghost mut done: int = 0;
    assert(all.take(0) =~= Seq::<(Seq<char>, Seq<char>, Option<Seq<char>>)>::empty());
    while reversed.len() > 0
        invariant
            0 <= done <= all.len(),
            done + reversed.len() == all.len(),
            all.skip(done) =~= navs_view(reversed@).reverse(),
            navs_view(unique@) == deduplicated(all.take(done)),
        decreases reversed.len(),
    {
        let ghost rev_before = navs_view(reversed@);
        let entry = reversed.pop().unwrap();
        let ghost e = nav_view(entry);
        proof {
            assert(rev_before =~= navs_view(reversed@).push(e));
            assert(rev_before.reverse() =~= seq![e] + navs_view(reversed@).reverse());
            assert(all[done] == e) by {
                assert(all.skip(done)[0] == e);
            }
            assert(all.skip(done + 1) =~= all.skip(done).drop_first());
            assert(all.take(done + 1).drop_last() =~= all.take(done));
            assert(all.take(done + 1).last() == e);
        }
        let ghost u = navs_view(unique@);
        let mut position: Option<usize> = None;
        let mut k: usize = 0;
        while k < unique.len()
            invariant
                k <= unique.len(),
                u == navs_view(unique@),
                e == nav_view(entry),
                match position {
                    Some(p) => first_equivalent(u.take(k as int), e) == Some(p as int),
                    None => first_equivalent(u.take(k as int), e) is None,
                },
                position is Some ==> k == unique.len(),
            decreases unique.len() - k,
        {
            assert(position is None);
            assert(u.take(k + 1).drop_last() == u.take(k as int));
            assert(u.take(k + 1).last() == nav_view(unique@[k as int]));
            assert(u.take(k + 1).len() == k + 1);
            if navigation_equivalent(&unique[k], &entry) {
                let ghost found = k as int;
                position = Some(k);
                proof {
                    assert(nav_equivalent(u.take(k + 1).last(), e));
                    assert(first_equivalent(u.take(k + 1), e) == Some(found));
                    lemma_first_equivalent_prefix(u, k + 1, e);
                    assert(u.take(unique.len() as int) == u);
                }
                k = unique.len();
            } else {
                k += 1;
            }
        }
        assert(u.take(unique.len() as int) == u);
        match position {
            Some(index) => {
                proof {
                    lemma_first_equivalent_range(u, e);
                }
                if is_structural_navigation_title(unique[index].title.as_str())
                    && !is_structural_navigation_title(entry.title.as_str()) {
                    unique.set(index, entry);
                    assert(navs_view(unique@) =~= u.update(index as int, e));
                }
            },
            None => {
                unique.push(entry);
                assert(navs_view(unique@) =~= u.push(e));
            },
        }
        proof {
            done = done + 1;
        }
    }
    assert(all.take(done) =~= all);
    unique
}

proof fn lemma_first_equivalent_prefix(
    u: Seq<(Seq<char>, Seq<char>, Option<Seq<char>>)>,
    n: int,
    e: (Seq<char>, Seq<char>, Option<Seq<char>>),
)
    requires
        0 <= n <= u.len(),
        first_equivalent(u.take(n), e) is Some,
    ensures
        first_equivalent(u, e) == first_equivalent(u.take(n), e),
    decreases u.len() - n,
{
    if n < u.len() {
        assert(u.take(n + 1).drop_last() == u.take(n));
        lemma_first_equivalent_prefix(u, n + 1, e);
    } else {
        assert(u.take(n) == u);
    }
}


/// The text the bytes encode (`String::from_utf8`), when they are valid UTF-8.
#[verifier::external_body]
fn string_from_utf8(bytes: Vec<u8>) -> (r: Option<String>)
    ensures
        match r {
            Some(s) => valid_utf8(bytes@) && s@ == decode_utf8(bytes@),
            None => !valid_utf8(bytes@),
        },
{
    String::from_utf8(bytes).ok()
}

/// The value of a hexadecimal digit byte.
pub open spec fn hex_value(b: u8) -> Option<u8> {
    if 0x30 <= b <= 0x39 {
        Some((b - 0x30) as u8)
    } else if 0x61 <= b <= 0x66 {
        Some((b - 0x61 + 10) as u8)
    } else if 0x41 <= b <= 0x46 {
        Some((b - 0x41 + 10) as u8)
    } else {
        None
    }
}

/// Bytes with each `%` followed by two hexadecimal digits (and at least
/// one more byte... as the scan reads it) replaced by the byte they spell.
pub open spec fn percent_bytes(b: Seq<u8>) -> Seq<u8>
    decreases b.len(),
{
    if b.len() == 0 {
        seq![]
    } else if b[0] == 0x25 && b.len() > 2 && hex_value(b[1]) is Some && hex_value(b[2]) is Some {
        seq![(hex_value(b[1])->0 * 16 + hex_value(b[2])->0) as u8] + percent_bytes(b.skip(3))
    } else {
        seq![b[0]] + percent_bytes(b.drop_first())
    }
}

/// A percent-decoded text; the text itself when the decoded bytes are not UTF-8.
pub open spec fn percent_decoded(v: Seq<char>) -> Seq<char> {
    let d = percent_bytes(encode_utf8(v));
    if valid_utf8(d) {
        decode_utf8(d)
    } else {
        v
    }
}

fn hex(byte: u8) -> (r: Option<u8>)
    ensures
        r == hex_value(byte),
{
    if 0x30 <= byte && byte <= 0x39 {
        Some(byte - 0x30)
    } else if 0x61 <= byte && byte <= 0x66 {
        Some(byte - 0x61 + 10)
    } else if 0x41 <= byte && byte <= 0x46 {
        Some(byte - 0x41 + 10)
    } else {
        None
    }
}

pub fn percent_decode(value: &str) -> (r: String)
    ensures
        r@ == percent_decoded(value@),
{
    let bytes = value.as_bytes();
    let mut decoded: Vec<u8> = Vec::new();
    let mut index: usize = 0;
    assert(bytes@.skip(0) == bytes@);
    while index < bytes.len()
        invariant
            index <= bytes.len(),
            bytes@ == encode_utf8(value@),
            decoded@ + percent_bytes(bytes@.skip(index as int)) == percent_bytes(bytes@),
        decreases bytes.len() - index,
    {
        let ghost rest = bytes@.skip(index as int);
        let ghost before = decoded@;
        assert(rest[0] == bytes@[index as int]);
        if bytes[index] == 0x25 && bytes.len() - index > 2 {
            let high = hex(bytes[index + 1]);
            let low = hex(bytes[index + 2]);
            assert(rest[1] == bytes@[index + 1] && rest[2] == bytes@[index + 2]);
            if high.is_some() && low.is_some() {
                let h = high.unwrap();
                let l = low.unwrap();
                decoded.push(h * 16 + l);
                assert(rest.skip(3) == bytes@.skip(index + 3));
                assert(decoded@ + percent_bytes(bytes@.skip(index + 3)) =~= before + percent_bytes(rest));
                index += 3;
                continue;
            }
        }
        decoded.push(bytes[index]);
        assert(rest.drop_first() == bytes@.skip(index + 1));
        assert(decoded@ + percent_bytes(bytes@.skip(index + 1)) =~= before + percent_bytes(rest));
        index += 1;
    }
    assert(bytes@.skip(bytes.len() as int) =~= Seq::<u8>::empty());
    assert(decoded@ + Seq::<u8>::empty() =~= decoded@);
    match string_from_utf8(decoded) {
        Some(s) => s,
        None => value.to_owned(),
    }
}

/// `s` without the leading occurrences of `c`.
pub open spec fn trim_leading(s: Seq<char>, c: char) -> Seq<char>
    decreases s.len(),
{
    if s.len() > 0 && s[0] == c {
        trim_leading(s.drop_first(), c)
    } else {
        s
    }
}

/// Backslashes read as slashes, leading slashes dropped.
pub open spec fn archive_path(path: Seq<char>) -> Seq<char> {
    trim_leading(replace_char(path, '\\', '/'), '/')
}

/// `s` with every `from` replaced by `to`.
pub open spec fn replace_char(s: Seq<char>, from: char, to: char) -> Seq<char> {
    s.map_values(|c: char| if c == from { to } else { c })
}

fn replace_char_exec(s: &[char], from: char, to: char) -> (r: Vec<char>)
    ensures
        r@ == replace_char(s@, from, to),
{
    let mut out: Vec<char> = Vec::new();
    let mut i: usize = 0;
    while i < s.len()
        invariant
            i <= s.len(),
            out@ == replace_char(s@.take(i as int), from, to),
        decreases s.len() - i,
    {
        out.push(if s[i] == from { to } else { s[i] });
        assert(replace_char(s@.take(i + 1), from, to) =~= replace_char(s@.take(i as int), from, to).push(if s@[i as int] == from { to } else { s@[i as int] }));
        i += 1;
    }
    assert(s@.take(s.len() as int) == s@);
    out
}

fn trim_leading_exec(s: &[char], c: char) -> (r: Vec<char>)
    ensures
        r@ == trim_leading(s@, c),
{
    let mut i: usize = 0;
    assert(s@.skip(0) == s@);
    while i < s.len() && s[i] == c
        invariant
            i <= s.len(),
            trim_leading(s@, c) == trim_leading(s@.skip(i as int), c),
        decreases s.len() - i,
    {
        assert(s@.skip(i as int).drop_first() == s@.skip(i + 1));
        i += 1;
    }
    let mut out: Vec<char> = Vec::new();
    let mut k: usize = i;
    while k < s.len()
        invariant
            i <= k <= s.len(),
            out@ == s@.subrange(i as int, k as int),
        decreases s.len() - k,
    {
        out.push(s[k]);
        assert(s@.subrange(i as int, k + 1) == s@.subrange(i as int, k as int).push(s@[k as int]));
        k += 1;
    }
    assert(s@.skip(i as int) == s@.subrange(i as int, s.len() as int));
    out
}

pub fn normalize_archive_path(path: &str) -> (r: Vec<char>)
    ensures
        r@ == archive_path(path@),
{
    let chars = chars_of(path);
    let slashed = replace_char_exec(chars.as_slice(), '\\', '/');
    trim_leading_exec(slashed.as_slice(), '/')
}

/// The directory stack after walking the path segments: empty and `.`
/// segments stay, `..` leaves a directory, any other segment is entered percent-decoded.
pub open spec fn walk_segments(start: Seq<Seq<char>>, parts: Seq<Seq<char>>) -> Seq<Seq<char>>
    decreases parts.len(),
{
    if parts.len() == 0 {
        start
    } else {
        let prev = walk_segments(start, parts.drop_last());
        let part = parts.last();
        if part.len() == 0 || part == "."@ {
            prev
        } else if part == ".."@ {
            if prev.len() > 0 { prev.drop_last() } else { prev }
        } else {
            prev.push(percent_decoded(part))
        }
    }
}

/// Segments joined with `/`.
pub open spec fn join_slash(s: Seq<Seq<char>>) -> Seq<char>
    decreases s.len(),
{
    if s.len() == 0 {
        seq![]
    } else if s.len() == 1 {
        s[0]
    } else {
        join_slash(s.drop_last()) + seq!['/'] + s.last()
    }
}

/// The archive path of `href` read relative to the document at `base`.
pub open spec fn zip_path(base: Seq<char>, href: Seq<char>) -> Seq<char> {
    let dir = split_pieces(archive_path(base), '/').drop_last();
    join_slash(walk_segments(dir, split_pieces(replace_char(href, '\\', '/'), '/')))
}

fn join_with_slash(parts: &Vec<Vec<char>>) -> (r: String)
    ensures
        r@ == join_slash(parts@.map_values(|p: Vec<char>| p@)),
{
    let ghost pv = parts@.map_values(|p: Vec<char>| p@);
    let mut out: Vec<char> = Vec::new();
    let mut i: usize = 0;
    while i < parts.len()
        invariant
            i <= parts.len(),
            pv == parts@.map_values(|p: Vec<char>| p@),
            out@ == join_slash(pv.take(i as int)),
        decreases parts.len() - i,
    {
        assert(pv.take(i + 1).drop_last() == pv.take(i as int));
        assert(pv.take(i + 1).last() == parts@[i as int]@);
        let ghost before = out@;
        if i > 0 {
            out.push('/');
        }
        let mut k: usize = 0;
        let ghost base = out@;
        while k < parts[i].len()
            invariant
                k <= parts@[i as int].len(),
                i < parts.len(),
                out@ == base + parts@[i as int]@.take(k as int),
            decreases parts@[i as int].len() - k,
        {
            out.push(parts[i][k]);
            assert(parts@[i as int]@.take(k + 1) == parts@[i as int]@.take(k as int).push(parts@[i as int]@[k as int]));
            k += 1;
        }
        assert(parts@[i as int]@.take(parts@[i as int].len() as int) == parts@[i as int]@);
        proof {
            if i == 0 {
                assert(pv.take(1) =~= seq![parts@[0]@]);
                assert(out@ =~= parts@[0]@);
            } else {
                assert(out@ =~= before + seq!['/'] + parts@[i as int]@);
            }
        }
        i += 1;
    }
    assert(pv.take(parts.len() as int) == pv);
    string_from_chars(out.as_slice())
}

pub fn resolve_zip_path(base_path: &str, href: &str) -> (r: String)
    ensures
        r@ == zip_path(base_path@, href@),
{
    let base = normalize_archive_path(base_path);
    let mut segments = split_char(&base, '/');
    let ghost sv = segments@.map_values(|p: Vec<char>| p@);
    assert(sv =~= split_pieces(archive_path(base_path@), '/'));
    let _ = segments.pop();
    let ghost dir = sv.drop_last();
    assert(segments@.map_values(|p: Vec<char>| p@) =~= dir);
    let slashed = replace_char_exec(chars_of(href).as_slice(), '\\', '/');
    let parts = split_char(&slashed, '/');
    let ghost partv = parts@.map_values(|p: Vec<char>| p@);
    assert(partv =~= split_pieces(replace_char(href@, '\\', '/'), '/'));
    let dot = chars_of(".");
    let dotdot = chars_of("..");
    let mut i: usize = 0;
    assert(partv.take(0) =~= Seq::<Seq<char>>::empty());
    while i < parts.len()
        invariant
            i <= parts.len(),
            partv == parts@.map_values(|p: Vec<char>| p@),
            dot@ == "."@,
            dotdot@ == ".."@,
            segments@.map_values(|p: Vec<char>| p@) == walk_segments(dir, partv.take(i as int)),
        decreases parts.len() - i,
    {
        assert(partv.take(i + 1).drop_last() == partv.take(i as int));
        assert(partv.take(i + 1).last() == parts@[i as int]@);
        let ghost before = segments@.map_values(|p: Vec<char>| p@);
        let part = &parts[i];
        if part.len() == 0 || crate::dictionary::lookup_state::chars_equal_pub(part, &dot) {
        } else if crate::dictionary::lookup_state::chars_equal_pub(part, &dotdot) {
            if segments.len() > 0 {
                let _ = segments.pop();
                assert(segments@.map_values(|p: Vec<char>| p@) =~= before.drop_last());
            }
        } else {
            let decoded = percent_decode(string_from_chars(part.as_slice()).as_str());
            segments.push(chars_of(decoded.as_str()));
            assert(segments@.map_values(|p: Vec<char>| p@) =~= before.push(percent_decoded(part@)));
        }
        i += 1;
    }
    assert(partv.take(parts.len() as int) == partv);
    join_with_slash(&segments)
}


/// The position of the first `c` in `s`.
pub open spec fn first_index(s: Seq<char>, c: char) -> Option<int>
    decreases s.len(),
{
    if s.len() == 0 {
        None
    } else if s[0] == c {
        Some(0)
    } else {
        match first_index(s.drop_first(), c) {
            Some(k) => Some(k + 1),
            None => None,
        }
    }
}

proof fn lemma_first_index(s: Seq<char>, c: char)
    ensures
        match first_index(s, c) {
            Some(k) => 0 <= k < s.len() && s[k] == c && forall|m: int| 0 <= m < k ==> s[m] != c,
            None => forall|m: int| 0 <= m < s.len() ==> s[m] != c,
        },
    decreases s.len(),
{
    if s.len() > 0 {
        lemma_first_index(s.drop_first(), c);
        if s[0] != c {
            match first_index(s.drop_first(), c) {
                Some(k) => {
                    assert forall|m: int| 0 <= m < k + 1 implies s[m] != c by {
                        if m > 0 {
                            assert(s[m] == s.drop_first()[m - 1]);
                        }
                    }
                },
                None => {
                    assert forall|m: int| 0 <= m < s.len() implies s[m] != c by {
                        if m > 0 {
                            assert(s[m] == s.drop_first()[m - 1]);
                        }
                    }
                },
            }
        }
    }
}

pub(crate) fn find_char(s: &[char], c: char) -> (r: Option<usize>)
    ensures
        match r {
            Some(k) => first_index(s@, c) == Some(k as int),
            None => first_index(s@, c) is None,
        },
{
    proof {
        lemma_first_index(s@, c);
    }
    let mut i: usize = 0;
    while i < s.len()
        invariant
            i <= s.len(),
            forall|m: int| 0 <= m < i ==> s@[m] != c,
            match first_index(s@, c) {
                Some(k) => 0 <= k < s@.len() && s@[k] == c && forall|m: int| 0 <= m < k ==> s@[m] != c,
                None => forall|m: int| 0 <= m < s@.len() ==> s@[m] != c,
            },
        decreases s.len() - i,
    {
        if s[i] == c {
            return Some(i);
        }
        i += 1;
    }
    None
}

/// A reference split at its first `#`, the fragment percent-decoded.
pub open spec fn split_reference(r: Seq<char>) -> (Seq<char>, Option<Seq<char>>) {
    match first_index(r, '#') {
        Some(h) => (r.take(h), Some(percent_decoded(r.skip(h + 1)))),
        None => (r, None),
    }
}

/// The archive path and fragment a reference in the document at `base` points to;
/// the query is dropped and an empty fragment counts as none.
pub open spec fn resolved_reference(base: Seq<char>, reference: Seq<char>) -> (Seq<char>, Option<Seq<char>>) {
    let (path, fragment) = split_reference(spec_trim(reference));
    let before_query = match first_index(path, '?') {
        Some(q) => path.take(q),
        None => path,
    };
    (
        zip_path(base, before_query),
        match fragment {
            Some(f) => if f.len() > 0 { Some(f) } else { None },
            None => None,
        },
    )
}

pub fn resolve_reference(base_path: &str, reference: &str) -> (r: (String, Option<String>))
    ensures
        (r.0@, opt_view(r.1)) == resolved_reference(base_path@, reference@),
{
    let trimmed = trim_chars(chars_of(reference).as_slice());
    proof {
        lemma_first_index(trimmed@, '#');
    }
    let (path, fragment) = match find_char(trimmed.as_slice(), '#') {
        Some(h) => {
            let n = trimmed.len();
            assert(h < n);
            let start = h + 1;
            let after = crate::text::string_from_range(trimmed.as_slice(), start, n);
            assert(after@ == trimmed@.skip(h + 1));
            let head = crate::text::string_from_range(trimmed.as_slice(), 0, h);
            assert(head@ == trimmed@.take(h as int));
            (chars_of(head.as_str()), Some(percent_decode(after.as_str())))
        },
        None => (trimmed, None),
    };
    proof {
        lemma_first_index(path@, '?');
    }
    let before_query = match find_char(path.as_slice(), '?') {
        Some(q) => {
            let head = crate::text::string_from_range(path.as_slice(), 0, q);
            assert(head@ == path@.take(q as int));
            head
        },
        None => string_from_chars(path.as_slice()),
    };
    let kept = match fragment {
        Some(f) => if f.as_str().is_empty() { None } else { Some(f) },
        None => None,
    };
    (resolve_zip_path(base_path, before_query.as_str()), kept)
}

/// Whether a reference leaves the book (web, data or script URLs).
pub open spec fn external_reference(reference: Seq<char>) -> bool {
    let lower = ascii_lowered(spec_trim(reference));
    starts_with(lower, "http:"@) || starts_with(lower, "https:"@) || starts_with(lower, "data:"@)
        || starts_with(lower, "javascript:"@)
}

pub open spec fn starts_with(s: Seq<char>, prefix: Seq<char>) -> bool {
    prefix.len() <= s.len() && s.take(prefix.len() as int) == prefix
}

fn starts_with_exec(s: &[char], prefix: &str) -> (b: bool)
    ensures
        b == starts_with(s@, prefix@),
{
    let p = chars_of(prefix);
    let b = crate::text::matches_at(s, 0, p.as_slice());
    assert(s@.subrange(0, p@.len() as int) == s@.take(p@.len() as int));
    b
}

pub fn is_external_reference(reference: &str) -> (b: bool)
    ensures
        b == external_reference(reference@),
{
    let trimmed = trim_chars(chars_of(reference).as_slice());
    let lower = crate::text::ascii_lowercase(trimmed.as_slice());
    starts_with_exec(lower.as_slice(), "http:") || starts_with_exec(lower.as_slice(), "https:")
        || starts_with_exec(lower.as_slice(), "data:") || starts_with_exec(
        lower.as_slice(),
        "javascript:",
    )
}

/// A value for a double-quoted YAML scalar: backslashes and quotes escaped,
/// line breaks turned into spaces.
pub open spec fn yaml_escaped(value: Seq<char>) -> Seq<char> {
    let a = crate::text::replace_all(value, "\\"@, "\\\\"@);
    let b = crate::text::replace_all(a, "\""@, "\\\""@);
    replace_char(replace_char(b, '\r', ' '), '\n', ' ')
}

pub fn escape_yaml(value: &str) -> (r: String)
    ensures
        r@ == yaml_escaped(value@),
{
    let chars = chars_of(value);
    let a = crate::text::replace_chars(chars.as_slice(), chars_of("\\").as_slice(), chars_of("\\\\").as_slice());
    let b = crate::text::replace_chars(a.as_slice(), chars_of("\"").as_slice(), chars_of("\\\"").as_slice());
    let c = replace_char_exec(b.as_slice(), '\r', ' ');
    let d = replace_char_exec(c.as_slice(), '\n', ' ');
    string_from_chars(d.as_slice())
}

/// Image alt text for Markdown: backslashes and closing brackets escaped.
pub open spec fn markdown_alt_escaped(value: Seq<char>) -> Seq<char> {
    crate::text::replace_all(crate::text::replace_all(value, "\\"@, "\\\\"@), "]"@, "\\]"@)
}

pub fn escape_markdown_alt(value: &str) -> (r: String)
    ensures
        r@ == markdown_alt_escaped(value@),
{
    let chars = chars_of(value);
    let a = crate::text::replace_chars(chars.as_slice(), chars_of("\\").as_slice(), chars_of("\\\\").as_slice());
    let b = crate::text::replace_chars(a.as_slice(), chars_of("]").as_slice(), chars_of("\\]").as_slice());
    string_from_chars(b.as_slice())
}

fn has_class_name(classes: &[String], value: &str) -> (b: bool)
    ensures
        b == classes@.map_values(|c: String| c@).contains(value@),
{
    let ghost cv = classes@.map_values(|c: String| c@);
    let mut i: usize = 0;
    while i < classes.len()
        invariant
            i <= classes.len(),
            cv == classes@.map_values(|c: String| c@),
            forall|m: int| 0 <= m < i ==> cv[m] != value@,
        decreases classes.len() - i,
    {
        if str_eq(classes[i].as_str(), value) {
            assert(cv[i as int] == value@);
            return true;
        }
        i += 1;
    }
    false
}

/// Images that only lay out the page: ruled lines, spacers, separators.
pub open spec fn presentation_image(classes: Seq<Seq<char>>) -> bool {
    (classes.contains("gaiji"@) && classes.contains("line"@)) || (classes.contains("keep"@)
        && classes.contains("space"@)) || classes.contains("spacer"@) || classes.contains(
        "separator"@,
    )
}

pub fn is_presentation_image(classes: &[String]) -> (b: bool)
    ensures
        b == presentation_image(classes@.map_values(|c: String| c@)),
{
    (has_class_name(classes, "gaiji") && has_class_name(classes, "line")) || (has_class_name(
        classes,
        "keep",
    ) && has_class_name(classes, "space")) || has_class_name(classes, "spacer")
        || has_class_name(classes, "separator")
}

/// The text after the last `.` (the whole text when there is none).
pub open spec fn extension(path: Seq<char>) -> Seq<char> {
    split_pieces(path, '.').last()
}

/// The media type of an image file, by its extension in any ASCII case.
pub open spec fn image_media(path: Seq<char>) -> Option<Seq<char>> {
    let e = ascii_lowered(extension(path));
    if e == "jpeg"@ || e == "jpg"@ {
        Some("image/jpeg"@)
    } else if e == "png"@ {
        Some("image/png"@)
    } else if e == "gif"@ {
        Some("image/gif"@)
    } else if e == "webp"@ {
        Some("image/webp"@)
    } else if e == "svg"@ {
        Some("image/svg+xml"@)
    } else {
        None
    }
}

pub fn image_media_type(path: &str) -> (r: Option<&'static str>)
    ensures
        match r {
            Some(t) => image_media(path@) == Some(t@),
            None => image_media(path@) is None,
        },
{
    let pieces = split_char(&chars_of(path), '.');
    let last = &pieces[pieces.len() - 1];
    let lower = crate::text::ascii_lowercase(last.as_slice());
    let e = string_from_chars(lower.as_slice());
    let ext = e.as_str();
    if str_eq(ext, "jpeg") || str_eq(ext, "jpg") {
        Some("image/jpeg")
    } else if str_eq(ext, "png") {
        Some("image/png")
    } else if str_eq(ext, "gif") {
        Some("image/gif")
    } else if str_eq(ext, "webp") {
        Some("image/webp")
    } else if str_eq(ext, "svg") {
        Some("image/svg+xml")
    } else {
        None
    }
}


pub open spec fn ascii_alnum(c: char) -> bool {
    ('0' <= c <= '9') || ('a' <= c <= 'z') || ('A' <= c <= 'Z')
}

/// Scanning left to right: ASCII whitespace dropped, a single space kept
/// only where it separated two ASCII letters or digits; the flag says
/// whitespace was skipped since the last character kept.
pub open spec fn inline_scan(s: Seq<char>) -> (Seq<char>, bool)
    decreases s.len(),
{
    if s.len() == 0 {
        (seq![], false)
    } else {
        let (o, pending) = inline_scan(s.drop_last());
        let c = s.last();
        if is_ascii_ws(c) {
            (o, o.len() > 0)
        } else {
            let spaced = if pending && o.len() > 0 && ascii_alnum(o.last()) && ascii_alnum(c) {
                o.push(' ')
            } else {
                o
            };
            (spaced.push(c), false)
        }
    }
}

/// Inline text as the reader shows it: the ellipsis spelled out and the
/// source's layout whitespace removed.
pub open spec fn inline_text(input: Seq<char>) -> Seq<char> {
    inline_scan(crate::text::replace_all(input, "…"@, "..."@)).0
}

fn is_ascii_ws_char(c: char) -> (b: bool)
    ensures
        b == is_ascii_ws(c),
{
    c == ' ' || c == '\t' || c == '\n' || c == '\x0C' || c == '\r'
}

fn is_ascii_alnum(c: char) -> (b: bool)
    ensures
        b == ascii_alnum(c),
{
    ('0' <= c && c <= '9') || ('a' <= c && c <= 'z') || ('A' <= c && c <= 'Z')
}

pub fn normalize_inline_text(input: &str) -> (r: String)
    ensures
        r@ == inline_text(input@),
{
    let spelled = crate::text::replace_chars(chars_of(input).as_slice(), chars_of("…").as_slice(), chars_of("...").as_slice());
    let mut collapsed: Vec<char> = Vec::new();
    let mut pending_space = false;
    let mut i: usize = 0;
    while i < spelled.len()
        invariant
            i <= spelled.len(),
            (collapsed@, pending_space) == inline_scan(spelled@.take(i as int)),
        decreases spelled.len() - i,
    {
        assert(spelled@.take(i + 1).drop_last() == spelled@.take(i as int));
        let c = spelled[i];
        if is_ascii_ws_char(c) {
            pending_space = collapsed.len() > 0;
        } else {
            if pending_space && collapsed.len() > 0 && is_ascii_alnum(collapsed[collapsed.len() - 1])
                && is_ascii_alnum(c) {
                collapsed.push(' ');
            }
            pending_space = false;
            collapsed.push(c);
        }
        i += 1;
    }
    assert(spelled@.take(spelled.len() as int) == spelled@);
    string_from_chars(collapsed.as_slice())
}

/// A ruby segment: inline text, trimmed.
pub fn normalize_ruby_segment(input: &str) -> (r: String)
    ensures
        r@ == spec_trim(inline_text(input@)),
{
    let inline = normalize_inline_text(input);
    let trimmed = trim_chars(chars_of(inline.as_str()).as_slice());
    string_from_chars(trimmed.as_slice())
}

/// `s` without ASCII whitespace at either end.
pub open spec fn ascii_trimmed(s: Seq<char>) -> Seq<char>
    decreases s.len(),
{
    if s.len() > 0 && is_ascii_ws(s[0]) {
        ascii_trimmed(s.drop_first())
    } else if s.len() > 0 && is_ascii_ws(s.last()) {
        ascii_trimmed(s.drop_last())
    } else {
        s
    }
}

fn ascii_trim(s: &[char]) -> (r: Vec<char>)
    ensures
        r@ == ascii_trimmed(s@),
{
    let mut i: usize = 0;
    let mut j: usize = s.len();
    assert(s@.subrange(0, s@.len() as int) == s@);
    while i < j && (is_ascii_ws_char(s[i]) || is_ascii_ws_char(s[j - 1]))
        invariant
            i <= j <= s.len(),
            ascii_trimmed(s@) == ascii_trimmed(s@.subrange(i as int, j as int)),
        decreases j - i,
    {
        let ghost t = s@.subrange(i as int, j as int);
        if is_ascii_ws_char(s[i]) {
            assert(t.drop_first() == s@.subrange(i + 1, j as int));
            i += 1;
        } else {
            assert(t.drop_last() == s@.subrange(i as int, j - 1));
            j -= 1;
        }
    }
    let mut out: Vec<char> = Vec::new();
    let mut k: usize = i;
    while k < j
        invariant
            i <= k <= j <= s.len(),
            out@ == s@.subrange(i as int, k as int),
        decreases j - k,
    {
        out.push(s[k]);
        assert(s@.subrange(i as int, k + 1) == s@.subrange(i as int, k as int).push(s@[k as int]));
        k += 1;
    }
    out
}

/// A paragraph: inline text without ASCII whitespace at its ends.
pub fn normalize_paragraph(input: &str) -> (r: String)
    ensures
        r@ == ascii_trimmed(inline_text(input@)),
{
    let inline = normalize_inline_text(input);
    let trimmed = ascii_trim(chars_of(inline.as_str()).as_slice());
    string_from_chars(trimmed.as_slice())
}

/// The position of the first occurrence of `pat` in `s`.
pub open spec fn find_seq(s: Seq<char>, pat: Seq<char>) -> Option<int>
    decreases s.len(),
{
    if pat.len() > s.len() {
        None
    } else if s.take(pat.len() as int) == pat {
        Some(0)
    } else if s.len() == 0 {
        None
    } else {
        match find_seq(s.drop_first(), pat) {
            Some(k) => Some(k + 1),
            None => None,
        }
    }
}

proof fn lemma_find_seq_range(s: Seq<char>, pat: Seq<char>)
    ensures
        match find_seq(s, pat) {
            Some(k) => 0 <= k && k + pat.len() <= s.len(),
            None => true,
        },
    decreases s.len(),
{
    if pat.len() <= s.len() && s.take(pat.len() as int) != pat && s.len() > 0 {
        lemma_find_seq_range(s.drop_first(), pat);
    }
}

pub fn find_pattern(s: &[char], pat: &[char]) -> (r: Option<usize>)
    ensures
        match r {
            Some(k) => find_seq(s@, pat@) == Some(k as int),
            None => find_seq(s@, pat@) is None,
        },
{
    let mut i: usize = 0;
    assert(s@.skip(0) == s@);
    while i < s.len()
        invariant
            i <= s.len(),
            find_seq(s@, pat@) == match find_seq(s@.skip(i as int), pat@) {
                Some(k) => Some(k + i),
                None => None,
            },
        decreases s.len() - i,
    {
        let ghost rest = s@.skip(i as int);
        if crate::text::matches_at(s, i, pat) {
            assert(rest.take(pat@.len() as int) == s@.subrange(i as int, i + pat@.len()));
            return Some(i);
        }
        assert(pat@.len() <= rest.len() ==> rest.take(pat@.len() as int) == s@.subrange(i as int, i + pat@.len()));
        assert(rest.drop_first() == s@.skip(i + 1));
        i += 1;
    }
    let ghost rest = s@.skip(i as int);
    assert(rest.len() == 0);
    if crate::text::matches_at(s, i, pat) {
        assert(rest.take(pat@.len() as int) == s@.subrange(i as int, i + pat@.len()));
        return Some(i);
    }
    assert(pat@.len() == 0 ==> s@.subrange(i as int, i as int) =~= pat@);
    assert(pat@.len() > 0);
    assert(find_seq(rest, pat@) is None);
    None
}

/// The text after the BOM, leading whitespace, an XML declaration and a doctype.
pub open spec fn without_prolog(input: Seq<char>) -> Seq<char> {
    let t1 = trim_start(trim_leading(input, '\u{feff}'));
    let t2 = if starts_with(t1, "<?xml"@) {
        match find_seq(t1, "?>"@) {
            Some(end) => trim_start(t1.skip(end + 2)),
            None => t1,
        }
    } else {
        t1
    };
    if t2.len() >= 9 && ascii_lowered(t2.take(9)) == "<!doctype"@ {
        match first_index(t2, '>') {
            Some(end) => trim_start(t2.skip(end + 1)),
            None => t2,
        }
    } else {
        t2
    }
}

fn trim_start_vec(s: &[char]) -> (r: Vec<char>)
    ensures
        r@ == trim_start(s@),
{
    let mut i: usize = 0;
    assert(s@.skip(0) == s@);
    while i < s.len() && is_whitespace(s[i])
        invariant
            i <= s.len(),
            trim_start(s@) == trim_start(s@.skip(i as int)),
        decreases s.len() - i,
    {
        assert(s@.skip(i as int).drop_first() == s@.skip(i + 1));
        i += 1;
    }
    let rest = crate::text::string_from_range(s, i, s.len());
    assert(rest@ == s@.skip(i as int));
    chars_of(rest.as_str())
}

fn skip_vec(s: &[char], k: usize) -> (r: Vec<char>)
    requires
        k <= s.len(),
    ensures
        r@ == s@.skip(k as int),
{
    let rest = crate::text::string_from_range(s, k, s.len());
    chars_of(rest.as_str())
}

pub fn strip_xml_declaration(input: &str) -> (r: String)
    ensures
        r@ == without_prolog(input@),
{
    let no_bom = trim_leading_exec(chars_of(input).as_slice(), '\u{feff}');
    let mut trimmed = trim_start_vec(no_bom.as_slice());
    proof {
        reveal_strlit("?>");
        reveal_strlit("<!doctype");
    }
    if starts_with_exec(trimmed.as_slice(), "<?xml") {
        let marker = chars_of("?>");
        proof {
            lemma_find_seq_range(trimmed@, marker@);
        }
        match find_pattern(trimmed.as_slice(), marker.as_slice()) {
            Some(end) => {
                assert(marker@.len() == 2);
                let n = trimmed.len();
                assert(end + 2 <= n);
                let start = end + 2;
                let rest = skip_vec(trimmed.as_slice(), start);
                trimmed = trim_start_vec(rest.as_slice());
            },
            None => {},
        }
    }
    if trimmed.len() >= 9 {
        let head = crate::text::string_from_range(trimmed.as_slice(), 0, 9);
        assert(head@ == trimmed@.take(9));
        let lowered = crate::text::ascii_lowercase(chars_of(head.as_str()).as_slice());
        let doctype = chars_of("<!doctype");
        if crate::dictionary::lookup_state::chars_equal_pub(&lowered, &doctype) {
            proof {
                lemma_first_index(trimmed@, '>');
            }
            match find_char(trimmed.as_slice(), '>') {
                Some(end) => {
                    assert(end < trimmed@.len());
                    let rest = skip_vec(trimmed.as_slice(), end + 1);
                    trimmed = trim_start_vec(rest.as_slice());
                },
                None => {},
            }
        }
    }
    string_from_chars(trimmed.as_slice())
}

/// Characters that separate the tokens of an `epub:type` or `class` value.
pub open spec fn token_separator(c: char) -> bool {
    spec_is_whitespace(c) || c == '/' || c == '\\' || c == '.' || c == '_' || c == '-'
}

/// Scanning left to right: the finished tokens and the token still open.
pub open spec fn token_scan(s: Seq<char>) -> (Seq<Seq<char>>, Seq<char>)
    decreases s.len(),
{
    if s.len() == 0 {
        (seq![], seq![])
    } else {
        let (done, current) = token_scan(s.drop_last());
        if token_separator(s.last()) {
            if current.len() > 0 { (done.push(current), seq![]) } else { (done, current) }
        } else {
            (done, current.push(s.last()))
        }
    }
}

/// The non-empty tokens of a value, ASCII-lowercased; none for no value.
pub open spec fn tokens_of(value: Option<Seq<char>>) -> Seq<Seq<char>> {
    let s = match value {
        Some(v) => v,
        None => seq![],
    };
    let (done, current) = token_scan(s);
    let all = if current.len() > 0 { done.push(current) } else { done };
    lowered_all(all)
}

pub open spec fn strings_of(v: Seq<String>) -> Seq<Seq<char>> {
    v.map_values(|t: String| t@)
}

pub open spec fn lowered_all(v: Seq<Seq<char>>) -> Seq<Seq<char>> {
    v.map_values(|t: Seq<char>| ascii_lowered(t))
}

fn is_token_separator(c: char) -> (b: bool)
    ensures
        b == token_separator(c),
{
    is_whitespace(c) || c == '/' || c == '\\' || c == '.' || c == '_' || c == '-'
}

pub fn token_list(value: Option<&str>) -> (r: Vec<String>)
    ensures
        strings_of(r@) == tokens_of(opt_str(value)),
{
    let chars = match value {
        Some(v) => chars_of(v),
        None => Vec::new(),
    };
    assert(chars@ == match opt_str(value) { Some(v) => v, None => Seq::<char>::empty() });
    let mut done: Vec<String> = Vec::new();
    let ghost mut done_raw: Seq<Seq<char>> = seq![];
    let mut current: Vec<char> = Vec::new();
    let mut i: usize = 0;
    while i < chars.len()
        invariant
            i <= chars.len(),
            (done_raw, current@) == token_scan(chars@.take(i as int)),
            strings_of(done@) == lowered_all(done_raw),
        decreases chars.len() - i,
    {
        assert(chars@.take(i + 1).drop_last() == chars@.take(i as int));
        if is_token_separator(chars[i]) {
            if current.len() > 0 {
                let lowered = crate::text::ascii_lowercase(current.as_slice());
                let token = string_from_chars(lowered.as_slice());
                assert(token@ == ascii_lowered(current@));
                let ghost old_done = done@;
                done.push(token);
                proof {
                    lemma_push_lowered(old_done, token, done_raw, current@);
                    done_raw = done_raw.push(current@);
                }
                current = Vec::new();
            }
        } else {
            current.push(chars[i]);
        }
        i += 1;
    }
    assert(chars@.take(chars.len() as int) == chars@);
    if current.len() > 0 {
        let lowered = crate::text::ascii_lowercase(current.as_slice());
        let token = string_from_chars(lowered.as_slice());
        assert(token@ == ascii_lowered(current@));
        let ghost old_done = done@;
        done.push(token);
        proof {
            lemma_push_lowered(old_done, token, done_raw, current@);
        }
    }
    done
}

proof fn lemma_push_lowered(done: Seq<String>, token: String, raw: Seq<Seq<char>>, current: Seq<char>)
    requires
        strings_of(done) == lowered_all(raw),
        token@ == ascii_lowered(current),
    ensures
        strings_of(done.push(token)) == lowered_all(raw.push(current)),
{
    let a = strings_of(done.push(token));
    let b = lowered_all(raw.push(current));
    assert(strings_of(done).len() == done.len());
    assert(lowered_all(raw).len() == raw.len());
    assert forall|k: int| 0 <= k < a.len() implies a[k] == b[k] by {
        if k < done.len() {
            assert(strings_of(done)[k] == lowered_all(raw)[k]);
        }
    }
    assert(a =~= b);
}

pub open spec fn opt_str(r: Option<&str>) -> Option<Seq<char>> {
    match r {
        Some(v) => Some(v@),
        None => None,
    }
}


/// The document a path names: the last one with that path.
pub open spec fn document_for(docs: Seq<SpineDocument>, path: Seq<char>) -> Option<int>
    decreases docs.len(),
{
    if docs.len() == 0 {
        None
    } else if docs.last().path@ == path {
        Some(docs.len() - 1)
    } else {
        document_for(docs.drop_last(), path)
    }
}

proof fn lemma_document_for_range(docs: Seq<SpineDocument>, path: Seq<char>)
    ensures
        match document_for(docs, path) {
            Some(k) => 0 <= k < docs.len() && docs[k].path@ == path,
            None => true,
        },
    decreases docs.len(),
{
    if docs.len() > 0 && docs.last().path@ != path {
        lemma_document_for_range(docs.drop_last(), path);
    }
}

fn find_document(documents: &[SpineDocument], path: &str) -> (r: Option<usize>)
    ensures
        match r {
            Some(k) => document_for(documents@, path@) == Some(k as int),
            None => document_for(documents@, path@) is None,
        },
{
    let mut i = documents.len();
    assert(documents@.take(i as int) == documents@);
    while i > 0
        invariant
            i <= documents@.len(),
            document_for(documents@, path@) == document_for(documents@.take(i as int), path@),
        decreases i,
    {
        assert(documents@.take(i as int).last() == documents@[i - 1]);
        assert(documents@.take(i as int).drop_last() == documents@.take(i - 1));
        if str_eq(documents[i - 1].path.as_str(), path) {
            return Some(i - 1);
        }
        i -= 1;
    }
    assert(documents@.take(0) =~= Seq::<SpineDocument>::empty());
    None
}

/// Whether the entry points at an illustration and is not structural.
pub open spec fn illustration_target(docs: Seq<SpineDocument>, e: NavigationEntry) -> bool {
    match document_for(docs, e.path@) {
        Some(k) => docs[k].role == DocumentRole::Illustration && !is_structural_title(e.title@),
        None => false,
    }
}

/// How many of the entries are illustration targets.
pub open spec fn illustration_count(nav: Seq<NavigationEntry>, docs: Seq<SpineDocument>) -> nat
    decreases nav.len(),
{
    if nav.len() == 0 {
        0
    } else {
        illustration_count(nav.drop_last(), docs) + if illustration_target(docs, nav.last()) {
            1nat
        } else {
            0nat
        }
    }
}

/// Whether some entry carries a chapter marker.
pub open spec fn has_chapter_titles(nav: Seq<NavigationEntry>) -> bool {
    exists|k: int| 0 <= k < nav.len() && chapter_like(#[trigger] nav[k].title@)
}

/// The chapters among navigation entries, in order: entries of covers,
/// tables of contents, notices and structural titles never count, nor title
/// pages unless the target shows the entry's title as a heading (and no entry
/// carries a chapter marker); the body starts at the first entry whose target
/// has real text, headings, illustrations in number, the title as a heading,
/// or a chapter marker, and every later kept entry follows.
/// `visual_headings[i]` says whether the target of entry `i` shows a
/// structural heading equivalent to its title.
pub open spec fn chapters_scan(
    nav: Seq<NavigationEntry>,
    docs: Seq<SpineDocument>,
    visual_headings: Seq<bool>,
    illustrations: nat,
    explicit: bool,
) -> (Seq<(Seq<char>, Seq<char>, Option<Seq<char>>)>, bool)
    decreases nav.len(),
{
    if nav.len() == 0 {
        (seq![], false)
    } else {
        let (kept, started) = chapters_scan(nav.drop_last(), docs, visual_headings, illustrations, explicit);
        let i = nav.len() - 1;
        let e = nav.last();
        match document_for(docs, e.path@) {
            None => (kept, started),
            Some(k) => {
                let d = docs[k];
                let visual = !explicit && visual_headings[i];
                if d.role == DocumentRole::Cover || d.role == DocumentRole::Toc || d.role == DocumentRole::Notice
                    || is_structural_title(e.title@) || (d.role == DocumentRole::TitlePage && !visual) {
                    (kept, started)
                } else {
                    let body_seed = d.metrics.text_chars >= 500 || d.metrics.headings > 0 || (d.role
                        == DocumentRole::Illustration && illustrations >= 2) || visual || chapter_like(e.title@);
                    if !started && !body_seed {
                        (kept, started)
                    } else {
                        (kept.push(nav_view(e)), true)
                    }
                }
            },
        }
    }
}

pub open spec fn selected_chapters(nav: Seq<NavigationEntry>, docs: Seq<SpineDocument>, visual_headings: Seq<bool>) -> Seq<(Seq<char>, Seq<char>, Option<Seq<char>>)> {
    chapters_scan(nav, docs, visual_headings, illustration_count(nav, docs), has_chapter_titles(nav)).0
}

fn copy_entry(e: &NavigationEntry) -> (r: NavigationEntry)
    ensures
        nav_view(r) == nav_view(*e),
{
    let fragment = match &e.fragment {
        Some(f) => Some(f.clone()),
        None => None,
    };
    NavigationEntry { title: e.title.clone(), path: e.path.clone(), fragment }
}

pub fn select_chapters(
    navigation: &[NavigationEntry],
    documents: &[SpineDocument],
    visual_headings: &[bool],
) -> (r: Vec<NavigationEntry>)
    requires
        visual_headings.len() == navigation.len(),
    ensures
        navs_view(r@) == selected_chapters(navigation@, documents@, visual_headings@),
{
    let ghost nav = navigation@;
    let mut illustrations: usize = 0;
    let mut explicit = false;
    let mut i: usize = 0;
    while i < navigation.len()
        invariant
            i <= navigation.len(),
            nav == navigation@,
            illustrations == illustration_count(nav.take(i as int), documents@),
            illustrations <= i,
            explicit == exists|k: int| 0 <= k < i && chapter_like(#[trigger] nav[k].title@),
        decreases navigation.len() - i,
    {
        assert(nav.take(i + 1).drop_last() == nav.take(i as int));
        assert(nav.take(i + 1).last() == nav[i as int]);
        let entry = &navigation[i];
        match find_document(documents, entry.path.as_str()) {
            Some(k) => {
                proof {
                    lemma_document_for_range(documents@, entry.path@);
                }
                if documents[k].role == DocumentRole::Illustration && !is_structural_navigation_title(entry.title.as_str()) {
                    illustrations += 1;
                }
            },
            None => {},
        }
        let chapter = looks_like_chapter_title(entry.title.as_str());
        explicit = explicit || chapter;
        i += 1;
    }
    assert(nav.take(navigation.len() as int) == nav);
    let mut kept: Vec<NavigationEntry> = Vec::new();
    let mut started = false;
    let mut j: usize = 0;
    while j < navigation.len()
        invariant
            j <= navigation.len(),
            nav == navigation@,
            visual_headings.len() == navigation.len(),
            illustrations == illustration_count(nav, documents@),
            explicit == has_chapter_titles(nav),
            (navs_view(kept@), started) == chapters_scan(nav.take(j as int), documents@, visual_headings@, illustrations as nat, explicit),
        decreases navigation.len() - j,
    {
        assert(nav.take(j + 1).drop_last() == nav.take(j as int));
        assert(nav.take(j + 1).last() == nav[j as int]);
        assert(nav.take(j + 1).len() - 1 == j);
        let entry = &navigation[j];
        match find_document(documents, entry.path.as_str()) {
            None => {},
            Some(k) => {
                proof {
                    lemma_document_for_range(documents@, entry.path@);
                }
                let document = &documents[k];
                let visual = !explicit && visual_headings[j];
                let role = document.role;
                if role == DocumentRole::Cover || role == DocumentRole::Toc || role == DocumentRole::Notice
                    || is_structural_navigation_title(entry.title.as_str()) || (role == DocumentRole::TitlePage
                    && !visual) {
                } else {
                    let body_seed = document.metrics.text_chars >= 500 || document.metrics.headings > 0
                        || (role == DocumentRole::Illustration && illustrations >= 2) || visual
                        || looks_like_chapter_title(entry.title.as_str());
                    if started || body_seed {
                        started = true;
                        let copy = copy_entry(entry);
                        let ghost before = navs_view(kept@);
                        kept.push(copy);
                        assert(navs_view(kept@) =~= before.push(nav_view(*entry)));
                    }
                }
            },
        }
        j += 1;
    }
    assert(nav.take(navigation.len() as int) == nav);
    kept
}


pub proof fn lemma_first_index_pub(s: Seq<char>, c: char)
    ensures
        match first_index(s, c) {
            Some(k) => 0 <= k < s.len() && s[k] == c && forall|m: int| 0 <= m < k ==> s[m] != c,
            None => forall|m: int| 0 <= m < s.len() ==> s[m] != c,
        },
{
    lemma_first_index(s, c);
}

/// The first occurrence is the one with no earlier occurrence.
pub proof fn lemma_first_index_unique(s: Seq<char>, c: char, k: int)
    requires
        0 <= k < s.len(),
        s[k] == c,
        forall|m: int| 0 <= m < k ==> s[m] != c,
    ensures
        first_index(s, c) == Some(k),
{
    lemma_first_index(s, c);
    match first_index(s, c) {
        Some(j) => {
            if j < k {
                assert(s[j] != c);
            }
            if j > k {
                assert(s[k] != c);
            }
        },
        None => {
            assert(s[k] != c);
        },
    }
}

pub proof fn lemma_first_index_none(s: Seq<char>, c: char)
    requires
        forall|m: int| 0 <= m < s.len() ==> s[m] != c,
    ensures
        first_index(s, c) is None,
{
    lemma_first_index(s, c);
}

pub proof fn lemma_find_seq_range_pub(s: Seq<char>, pat: Seq<char>)
    ensures
        match find_seq(s, pat) {
            Some(k) => 0 <= k && k + pat.len() <= s.len(),
            None => true,
        },
{
    lemma_find_seq_range(s, pat);
}

pub fn trim_leading_pub(s: &[char], c: char) -> (r: Vec<char>)
    ensures
        r@ == trim_leading(s@, c),
{
    trim_leading_exec(s, c)
}

pub fn replace_char_pub(s: &[char], from: char, to: char) -> (r: Vec<char>)
    ensures
        r@ == replace_char(s@, from, to),
{
    replace_char_exec(s, from, to)
}

} // verus!
