//! The canonical text of an imported book: inline content gathered into
//! headings, paragraphs and images, repeated blocks dropped, and the whole
//! written out as Markdown with front matter and a table of contents; and the
//! navigation merged from the book's own table and its spine.
use vstd::prelude::*;
use crate::import::epub::{
    ascii_trimmed, deduplicate_navigation, deduplicated, escape_markdown_alt, escape_yaml,
    heading_equivalent, heading_key, inline_text, markdown_alt_escaped, nav_view, navs_view,
    normalize_paragraph, normalize_spaced_title, spaced_title, yaml_escaped, NavigationEntry,
    SpineDocument, DocumentMetrics, DocumentRole, find_pattern, find_seq, strings_of, token_list,
    tokens_of,
};
use crate::dictionary::bubble_html::{join_labels, joined};
use crate::text::ascii_lowercase;
use crate::text::{ascii_lowered, chars_of, eq_ignore_ascii_case, is_whitespace, push_str, spec_is_whitespace};

verus! {

/// A block of the canonical text.
pub enum CanonicalBlock {
    Heading(String),
    Paragraph(String),
    Image { href: String, alt: String },
}

/// A piece of inline content as the document walk meets it.
pub enum InlinePart {
    Text(String),
    Break,
    Heading(String),
    Image { href: String, alt: String },
}

pub ghost enum BlockView {
    Heading(Seq<char>),
    Paragraph(Seq<char>),
    Image(Seq<char>, Seq<char>),
}

pub open spec fn block_view(b: CanonicalBlock) -> BlockView {
    match b {
        CanonicalBlock::Heading(t) => BlockView::Heading(t@),
        CanonicalBlock::Paragraph(t) => BlockView::Paragraph(t@),
        CanonicalBlock::Image { href, alt } => BlockView::Image(href@, alt@),
    }
}

pub open spec fn blocks_view(bs: Seq<CanonicalBlock>) -> Seq<BlockView> {
    bs.map_values(|b: CanonicalBlock| block_view(b))
}

/// A paragraph's text: inline whitespace collapsed, trimmed.
pub open spec fn paragraph_of(s: Seq<char>) -> Seq<char> {
    ascii_trimmed(inline_text(s))
}

/// The last block is a heading equivalent to `t`.
pub open spec fn after_same_heading(bs: Seq<BlockView>, t: Seq<char>) -> bool {
    bs.len() > 0 && match bs.last() {
        BlockView::Heading(p) => heading_key(p) == heading_key(t),
        _ => false,
    }
}

/// A heading is added unless it is empty or repeats the heading just before it.
pub open spec fn with_heading(bs: Seq<BlockView>, raw: Seq<char>) -> Seq<BlockView> {
    let t = spaced_title(paragraph_of(raw));
    if t.len() == 0 || after_same_heading(bs, t) { bs } else { bs.push(BlockView::Heading(t)) }
}

/// A paragraph is added unless it repeats the heading just before it.
pub open spec fn with_paragraph(bs: Seq<BlockView>, p: Seq<char>) -> Seq<BlockView> {
    if after_same_heading(bs, p) { bs } else { bs.push(BlockView::Paragraph(p)) }
}

/// The gathered text becomes a paragraph when it has any.
pub open spec fn flushed(bs: Seq<BlockView>, text: Seq<char>) -> Seq<BlockView> {
    let p = paragraph_of(text);
    if p.len() == 0 { bs } else { with_paragraph(bs, p) }
}

/// The blocks and the text gathered so far after the parts.
pub open spec fn inline_state(bs: Seq<BlockView>, parts: Seq<InlinePart>) -> (Seq<BlockView>, Seq<char>)
    decreases parts.len(),
{
    if parts.len() == 0 {
        (bs, seq![])
    } else {
        let (b, text) = inline_state(bs, parts.drop_last());
        match parts.last() {
            InlinePart::Text(v) => (b, text + v@),
            InlinePart::Break => (flushed(b, text), seq![]),
            InlinePart::Heading(t) => (with_heading(flushed(b, text), t@), seq![]),
            InlinePart::Image { href, alt } => (flushed(b, text).push(BlockView::Image(href@, alt@)), seq![]),
        }
    }
}

pub open spec fn appended(bs: Seq<BlockView>, parts: Seq<InlinePart>) -> Seq<BlockView> {
    flushed(inline_state(bs, parts).0, inline_state(bs, parts).1)
}

fn last_is_same_heading(blocks: &Vec<CanonicalBlock>, t: &str) -> (r: bool)
    ensures
        r == after_same_heading(blocks_view(blocks@), t@),
{
    if blocks.len() == 0 {
        return false;
    }
    let n = blocks.len();
    assert(blocks_view(blocks@).last() == block_view(blocks@[n - 1]));
    match &blocks[n - 1] {
        CanonicalBlock::Heading(p) => heading_equivalent(p.as_str(), t),
        _ => false,
    }
}

/// Adds a heading (normalised), unless it is empty or repeats the heading before it.
pub fn push_heading(blocks: &mut Vec<CanonicalBlock>, title: String)
    ensures
        blocks_view(final(blocks)@) == with_heading(blocks_view(old(blocks)@), title@),
{
    let paragraph = normalize_paragraph(title.as_str());
    let t = normalize_spaced_title(paragraph.as_str());
    if t.as_str().is_empty() {
        return;
    }
    if last_is_same_heading(blocks, t.as_str()) {
        return;
    }
    let ghost before = blocks_view(blocks@);
    blocks.push(CanonicalBlock::Heading(t));
    assert(blocks_view(blocks@) =~= before.push(BlockView::Heading(spaced_title(paragraph_of(title@)))));
}

/// Adds a paragraph unless it repeats the heading before it.
pub fn push_paragraph(blocks: &mut Vec<CanonicalBlock>, paragraph: String)
    ensures
        blocks_view(final(blocks)@) == with_paragraph(blocks_view(old(blocks)@), paragraph@),
{
    if last_is_same_heading(blocks, paragraph.as_str()) {
        return;
    }
    let ghost before = blocks_view(blocks@);
    let ghost p = paragraph@;
    blocks.push(CanonicalBlock::Paragraph(paragraph));
    assert(blocks_view(blocks@) =~= before.push(BlockView::Paragraph(p)));
}

fn flush(blocks: &mut Vec<CanonicalBlock>, text: &mut String)
    ensures
        blocks_view(final(blocks)@) == flushed(blocks_view(old(blocks)@), old(text)@),
        final(text)@ == Seq::<char>::empty(),
{
    let paragraph = normalize_paragraph(text.as_str());
    *text = String::new();
    if !paragraph.as_str().is_empty() {
        push_paragraph(blocks, paragraph);
    }
}

/// Gathers inline parts into blocks: text runs up to a break, a heading or an
/// image become a paragraph; headings and images are blocks of their own.
pub fn append_inline_parts(blocks: &mut Vec<CanonicalBlock>, parts: Vec<InlinePart>)
    ensures
        blocks_view(final(blocks)@) == appended(blocks_view(old(blocks)@), parts@),
{
    let ghost start = blocks_view(blocks@);
    let ghost all = parts@;
    let mut text = String::new();
    let mut parts = parts;
    let n = parts.len();
    let mut k: usize = 0;
    while k < n
        invariant
            k <= n == all.len(),
            parts@ == all.skip(k as int),
            (blocks_view(blocks@), text@) == inline_state(start, all.take(k as int)),
        decreases n - k,
    {
        assert(all.take(k + 1).drop_last() =~= all.take(k as int));
        assert(parts@[0] == all[k as int]);
        let part = parts.remove(0);
        assert(parts@ =~= all.skip(k + 1));
        match part {
            InlinePart::Text(value) => {
                push_str(&mut text, value.as_str());
            },
            InlinePart::Break => {
                flush(blocks, &mut text);
            },
            InlinePart::Heading(title) => {
                flush(blocks, &mut text);
                push_heading(blocks, title);
            },
            InlinePart::Image { href, alt } => {
                flush(blocks, &mut text);
                let ghost before = blocks_view(blocks@);
                let ghost hv = href@;
                let ghost av = alt@;
                blocks.push(CanonicalBlock::Image { href, alt });
                assert(blocks_view(blocks@) =~= before.push(BlockView::Image(hv, av)));
            },
        }
        k += 1;
    }
    assert(all.take(n as int) =~= all);
    flush(blocks, &mut text);
}

/// Two neighbouring blocks say the same: equivalent headings, or images of
/// the same file (ASCII case ignored).
pub open spec fn same_block(left: BlockView, right: BlockView) -> bool {
    match (left, right) {
        (BlockView::Heading(a), BlockView::Heading(b)) => heading_key(a) == heading_key(b),
        (BlockView::Image(a, _), BlockView::Image(b, _)) => ascii_lowered(a) == ascii_lowered(b),
        _ => false,
    }
}

/// Each block that repeats the block kept before it is dropped.
pub open spec fn deduplicated_blocks(bs: Seq<BlockView>) -> Seq<BlockView>
    decreases bs.len(),
{
    if bs.len() == 0 {
        bs
    } else {
        let kept = deduplicated_blocks(bs.drop_last());
        if kept.len() > 0 && same_block(kept.last(), bs.last()) { kept } else { kept.push(bs.last()) }
    }
}

fn same_blocks(left: &CanonicalBlock, right: &CanonicalBlock) -> (r: bool)
    ensures
        r == same_block(block_view(*left), block_view(*right)),
{
    match (left, right) {
        (CanonicalBlock::Heading(a), CanonicalBlock::Heading(b)) => heading_equivalent(a.as_str(), b.as_str()),
        (CanonicalBlock::Image { href: a, .. }, CanonicalBlock::Image { href: b, .. }) => eq_ignore_ascii_case(a.as_str(), b.as_str()),
        _ => false,
    }
}

/// Drops each block that repeats the block kept before it.
pub fn normalize_blocks(blocks: &mut Vec<CanonicalBlock>)
    ensures
        blocks_view(final(blocks)@) == deduplicated_blocks(blocks_view(old(blocks)@)),
{
    let ghost orig = blocks@;
    let ghost all = blocks_view(blocks@);
    let n = blocks.len();
    let mut kept: Vec<CanonicalBlock> = Vec::new();
    let mut k: usize = 0;
    while k < n
        invariant
            k <= n == all.len() == orig.len(),
            all == blocks_view(orig),
            blocks@ == orig.skip(k as int),
            blocks_view(kept@) == deduplicated_blocks(all.take(k as int)),
        decreases n - k,
    {
        assert(all.take(k + 1).drop_last() =~= all.take(k as int));
        assert(blocks@[0] == orig[k as int]);
        let b = blocks.remove(0);
        assert(blocks@ =~= orig.skip(k + 1));
        assert(block_view(b) == all[k as int]);
        let repeat = if kept.len() > 0 {
            let m = kept.len();
            assert(blocks_view(kept@).last() == block_view(kept@[m - 1]));
            same_blocks(&kept[m - 1], &b)
        } else {
            false
        };
        if !repeat {
            let ghost before = blocks_view(kept@);
            let ghost bv = block_view(b);
            kept.push(b);
            assert(blocks_view(kept@) =~= before.push(bv));
        }
        k += 1;
    }
    assert(all.take(n as int) =~= all);
    *blocks = kept;
}

/// The book's title, author, date and language.
pub struct Metadata {
    pub title: String,
    pub author: String,
    pub date: String,
    pub language: String,
}

/// An image's file as Markdown writes it: in angle brackets when it holds
/// whitespace or parentheses.
pub open spec fn markdown_href(href: Seq<char>) -> Seq<char> {
    if exists|i: int| 0 <= i < href.len() && (spec_is_whitespace(#[trigger] href[i]) || href[i] == '(' || href[i] == ')') {
        "<"@ + href + ">"@
    } else {
        href
    }
}

pub open spec fn block_markdown(b: BlockView) -> Seq<char> {
    match b {
        BlockView::Heading(t) => "## "@ + t,
        BlockView::Paragraph(t) => t,
        BlockView::Image(href, alt) => "!["@ + markdown_alt_escaped(alt) + "]("@ + markdown_href(href) + ")"@,
    }
}

pub open spec fn blocks_markdown(bs: Seq<BlockView>) -> Seq<char>
    decreases bs.len(),
{
    if bs.len() == 0 { seq![] } else { blocks_markdown(bs.drop_last()) + "\n\n"@ + block_markdown(bs.last()) }
}

pub open spec fn toc_lines(titles: Seq<String>) -> Seq<char>
    decreases titles.len(),
{
    if titles.len() == 0 { seq![] } else { toc_lines(titles.drop_last()) + "\n- [[#"@ + titles.last()@ + "]]"@ }
}

pub open spec fn front_matter(m: Metadata) -> Seq<char> {
    "---\ntitle: \""@ + yaml_escaped(m.title@) + "\"\nauthor: \""@ + yaml_escaped(m.author@) + "\"\ndate: \""@
        + yaml_escaped(m.date@) + "\"\nlanguage: \""@ + yaml_escaped(m.language@) + "\"\n---"@
}

/// The book as Markdown: front matter, a table of contents of the chapter
/// titles when there are any, then the blocks, separated by blank lines.
pub open spec fn book_markdown(m: Metadata, titles: Seq<String>, bs: Seq<BlockView>) -> Seq<char> {
    front_matter(m)
        + (if titles.len() > 0 { "\n\n## 目次"@ + toc_lines(titles) } else { seq![] })
        + blocks_markdown(bs) + "\n"@
}

fn push_href(out: &mut String, href: &str)
    ensures
        final(out)@ == old(out)@ + markdown_href(href@),
{
    let chars = chars_of(href);
    let mut wrap = false;
    for i in 0..chars.len()
        invariant
            chars@ == href@,
            wrap == exists|j: int| 0 <= j < i && (spec_is_whitespace(#[trigger] href@[j]) || href@[j] == '(' || href@[j] == ')'),
    {
        if is_whitespace(chars[i]) || chars[i] == '(' || chars[i] == ')' {
            wrap = true;
        }
    }
    if wrap {
        push_str(out, "<");
        push_str(out, href);
        push_str(out, ">");
    } else {
        push_str(out, href);
    }
}

pub fn serialize_markdown(metadata: &Metadata, chapter_titles: &[String], blocks: &[CanonicalBlock]) -> (r: String)
    ensures
        r@ == book_markdown(*metadata, chapter_titles@, blocks_view(blocks@)),
{
    let mut out = String::new();
    push_str(&mut out, "---\ntitle: \"");
    push_str(&mut out, escape_yaml(metadata.title.as_str()).as_str());
    push_str(&mut out, "\"\nauthor: \"");
    push_str(&mut out, escape_yaml(metadata.author.as_str()).as_str());
    push_str(&mut out, "\"\ndate: \"");
    push_str(&mut out, escape_yaml(metadata.date.as_str()).as_str());
    push_str(&mut out, "\"\nlanguage: \"");
    push_str(&mut out, escape_yaml(metadata.language.as_str()).as_str());
    push_str(&mut out, "\"\n---");
    assert(out@ =~= front_matter(*metadata));
    let ghost s1 = out@;
    if chapter_titles.len() > 0 {
        push_str(&mut out, "\n\n## 目次");
        let ghost s2 = out@;
        for i in 0..chapter_titles.len()
            invariant
                out@ == s2 + toc_lines(chapter_titles@.take(i as int)),
        {
            assert(chapter_titles@.take(i + 1).drop_last() =~= chapter_titles@.take(i as int));
            push_str(&mut out, "\n- [[#");
            push_str(&mut out, chapter_titles[i].as_str());
            push_str(&mut out, "]]");
        }
        assert(chapter_titles@.take(chapter_titles.len() as int) =~= chapter_titles@);
    }
    let ghost s3 = out@;
    let ghost bv = blocks_view(blocks@);
    for i in 0..blocks.len()
        invariant
            bv == blocks_view(blocks@),
            out@ == s3 + blocks_markdown(bv.take(i as int)),
    {
        assert(bv.take(i + 1).drop_last() =~= bv.take(i as int));
        assert(bv[i as int] == block_view(blocks@[i as int]));
        let ghost s0 = out@;
        push_str(&mut out, "\n\n");
        match &blocks[i] {
            CanonicalBlock::Heading(t) => {
                push_str(&mut out, "## ");
                push_str(&mut out, t.as_str());
            },
            CanonicalBlock::Paragraph(t) => {
                push_str(&mut out, t.as_str());
            },
            CanonicalBlock::Image { href, alt } => {
                push_str(&mut out, "![");
                push_str(&mut out, escape_markdown_alt(alt.as_str()).as_str());
                push_str(&mut out, "](");
                push_href(&mut out, href.as_str());
                push_str(&mut out, ")");
            },
        }
        assert(out@ =~= s0 + "\n\n"@ + block_markdown(bv[i as int]));
    }
    assert(bv.take(blocks.len() as int) =~= bv);
    push_str(&mut out, "\n");
    assert(out@ =~= book_markdown(*metadata, chapter_titles@, bv));
    out
}

/// The path of the spine document that names the same file (ASCII case
/// ignored), else the path as given.
pub open spec fn canonical_path(path: Seq<char>, docs: Seq<SpineDocument>, i: int) -> Seq<char>
    decreases docs.len() - i,
{
    if i < 0 || i >= docs.len() {
        path
    } else if ascii_lowered(docs[i].path@) == ascii_lowered(path) {
        docs[i].path@
    } else {
        canonical_path(path, docs, i + 1)
    }
}

pub open spec fn with_canonical_paths(v: Seq<(Seq<char>, Seq<char>, Option<Seq<char>>)>, docs: Seq<SpineDocument>)
    -> Seq<(Seq<char>, Seq<char>, Option<Seq<char>>)> {
    v.map_values(|e: (Seq<char>, Seq<char>, Option<Seq<char>>)| (e.0, canonical_path(e.1, docs, 0), e.2))
}

/// The book's navigation: the longer of the two tables (each without
/// repeats) first, then the other, paths spelled as the spine spells them,
/// repeats dropped.
pub open spec fn merged_navigation(
    primary: Seq<NavigationEntry>,
    secondary: Seq<NavigationEntry>,
    docs: Seq<SpineDocument>,
) -> Seq<(Seq<char>, Seq<char>, Option<Seq<char>>)> {
    let p = deduplicated(navs_view(primary));
    let s = deduplicated(navs_view(secondary));
    let m = if s.len() > p.len() { s + p } else { p + s };
    deduplicated(with_canonical_paths(m, docs))
}

fn canonical_path_of(path: &String, docs: &[SpineDocument]) -> (r: String)
    ensures
        r@ == canonical_path(path@, docs@, 0),
{
    let mut i: usize = 0;
    while i < docs.len()
        invariant
            i <= docs@.len(),
            canonical_path(path@, docs@, 0) == canonical_path(path@, docs@, i as int),
        decreases docs@.len() - i,
    {
        if eq_ignore_ascii_case(docs[i].path.as_str(), path.as_str()) {
            return docs[i].path.clone();
        }
        i += 1;
    }
    path.clone()
}

fn drain_into(out: &mut Vec<NavigationEntry>, v: Vec<NavigationEntry>)
    ensures
        navs_view(final(out)@) == navs_view(old(out)@) + navs_view(v@),
{
    let ghost start = navs_view(out@);
    let ghost all = v@;
    let mut v = v;
    let n = v.len();
    let mut k: usize = 0;
    while k < n
        invariant
            k <= n == all.len(),
            v@ == all.skip(k as int),
            navs_view(out@) == start + navs_view(all.take(k as int)),
        decreases n - k,
    {
        assert(v@[0] == all[k as int]);
        let e = v.remove(0);
        assert(v@ =~= all.skip(k + 1));
        let ghost before = navs_view(out@);
        out.push(e);
        assert(navs_view(out@) =~= before.push(nav_view(all[k as int])));
        assert(navs_view(all.take(k + 1)) =~= navs_view(all.take(k as int)).push(nav_view(all[k as int])));
        k += 1;
    }
    assert(all.take(n as int) =~= all);
}

/// Merges the navigation of the book's table with the one read from its spine.
pub fn merge_navigation(primary: Vec<NavigationEntry>, secondary: Vec<NavigationEntry>, documents: &[SpineDocument]) -> (r: Vec<NavigationEntry>)
    ensures
        navs_view(r@) == merged_navigation(primary@, secondary@, documents@),
{
    let p = deduplicate_navigation(primary);
    let s = deduplicate_navigation(secondary);
    let mut merged: Vec<NavigationEntry> = Vec::new();
    if s.len() > p.len() {
        drain_into(&mut merged, s);
        drain_into(&mut merged, p);
    } else {
        drain_into(&mut merged, p);
        drain_into(&mut merged, s);
    }
    proof {
        assert(navs_view(merged@).len() == merged@.len());
    }
    let ghost m = navs_view(merged@);
    let ghost all = merged@;
    let n = merged.len();
    let mut fixed: Vec<NavigationEntry> = Vec::new();
    let mut k: usize = 0;
    while k < n
        invariant
            k <= n == all.len() == m.len(),
            m == navs_view(all),
            merged@ == all.skip(k as int),
            navs_view(fixed@) == with_canonical_paths(m.take(k as int), documents@),
        decreases n - k,
    {
        assert(merged@[0] == all[k as int]);
        let e = merged.remove(0);
        assert(merged@ =~= all.skip(k + 1));
        let path = canonical_path_of(&e.path, documents);
        let ghost before = navs_view(fixed@);
        let ghost ev = nav_view(e);
        assert(ev == m[k as int]);
        let entry = NavigationEntry { title: e.title, path, fragment: e.fragment };
        assert(nav_view(entry) == (ev.0, canonical_path(ev.1, documents@, 0), ev.2));
        fixed.push(entry);
        assert(navs_view(fixed@) =~= before.push(nav_view(entry)));
        assert(with_canonical_paths(m.take(k + 1), documents@) =~= with_canonical_paths(m.take(k as int), documents@).push(
            (ev.0, canonical_path(ev.1, documents@, 0), ev.2)));
        assert(navs_view(fixed@) =~= with_canonical_paths(m.take(k + 1), documents@));
        k += 1;
    }
    assert(m.take(n as int) =~= m);
    deduplicate_navigation(fixed)
}

/// The words a document is classified by: its manifest properties, the role
/// hints of the package, its body's `epub:type` and `class` tokens, and the
/// tokens of its manifest id and href; joined by spaces, ASCII lowercased.
pub open spec fn role_signals(
    properties: Seq<String>,
    hints: Seq<String>,
    epub_type: Option<Seq<char>>,
    class: Option<Seq<char>>,
    id: Seq<char>,
    href: Seq<char>,
) -> Seq<char> {
    ascii_lowered(joined(
        strings_of(properties) + strings_of(hints) + tokens_of(epub_type) + tokens_of(class) + tokens_of(Some(id))
            + tokens_of(Some(href)),
        " "@,
    ))
}

pub open spec fn mentions(text: Seq<char>, words: Seq<Seq<char>>) -> bool {
    exists|i: int| 0 <= i < words.len() && find_seq(text, #[trigger] words[i]) is Some
}

/// What a spine document is: a cover, a table of contents, a notice, a title
/// page, back matter, an illustration or content, by the words that describe
/// it and by its counts.
pub open spec fn document_role(signals: Seq<char>, m: DocumentMetrics) -> DocumentRole {
    if mentions(signals, seq!["cover"@, "表紙"@]) && m.images > 0 {
        DocumentRole::Cover
    } else if (mentions(signals, seq!["toc"@, "contents"@, "目次"@]) && m.links >= 2) || (m.links >= 3 && m.text_chars < 2000) {
        DocumentRole::Toc
    } else if mentions(signals, seq!["caution"@, "notice"@, "copyright"@]) && m.text_chars < 2000 {
        DocumentRole::Notice
    } else if mentions(signals, seq!["titlepage"@, "title-page"@]) && m.text_chars < 800 {
        DocumentRole::TitlePage
    } else if mentions(signals, seq!["colophon"@, "奥付"@]) {
        DocumentRole::Backmatter
    } else if m.images > 0 && m.text_chars == 0 {
        DocumentRole::Illustration
    } else {
        DocumentRole::Content
    }
}

fn mentions_any(text: &Vec<char>, words: &[&str]) -> (b: bool)
    ensures
        b == mentions(text@, words@.map_values(|w: &str| w@)),
{
    let ghost ws = words@.map_values(|w: &str| w@);
    for i in 0..words.len()
        invariant
            ws == words@.map_values(|w: &str| w@),
            forall|j: int| 0 <= j < i ==> find_seq(text@, #[trigger] ws[j]) is None,
    {
        let w = chars_of(words[i]);
        assert(w@ == ws[i as int]);
        if find_pattern(text.as_slice(), w.as_slice()).is_some() {
            return true;
        }
    }
    false
}

fn push_all(out: &mut Vec<String>, v: &[String])
    ensures
        strings_of(final(out)@) == strings_of(old(out)@) + strings_of(v@),
{
    let ghost start = strings_of(out@);
    for i in 0..v.len()
        invariant
            strings_of(out@) == start + strings_of(v@.take(i as int)),
    {
        let ghost before = strings_of(out@);
        let t = v[i].clone();
        assert(t@ == v@[i as int]@);
        out.push(t);
        assert(strings_of(out@) =~= before.push(v@[i as int]@));
        assert(strings_of(v@.take(i + 1)) =~= strings_of(v@.take(i as int)).push(v@[i as int]@));
    }
    assert(v@.take(v.len() as int) =~= v@);
}

/// Classifies a spine document.
pub fn classify_document(
    properties: &[String],
    role_hints: &[String],
    epub_type: Option<&str>,
    class: Option<&str>,
    item_id: &str,
    item_href: &str,
    metrics: &DocumentMetrics,
) -> (r: DocumentRole)
    ensures
        r == document_role(role_signals(properties@, role_hints@, crate::import::epub::opt_str(epub_type),
            crate::import::epub::opt_str(class), item_id@, item_href@), *metrics),
{
    let mut signals: Vec<String> = Vec::new();
    push_all(&mut signals, properties);
    push_all(&mut signals, role_hints);
    push_all(&mut signals, token_list(epub_type).as_slice());
    push_all(&mut signals, token_list(class).as_slice());
    push_all(&mut signals, token_list(Some(item_id)).as_slice());
    push_all(&mut signals, token_list(Some(item_href)).as_slice());
    let joined_text = join_labels(&signals, " ");
    let text = ascii_lowercase(chars_of(joined_text.as_str()).as_slice());
    let ghost sig = role_signals(properties@, role_hints@, crate::import::epub::opt_str(epub_type),
        crate::import::epub::opt_str(class), item_id@, item_href@);
    assert(signals@.map_values(|p: String| p@) =~= strings_of(signals@));
    assert(text@ == sig);
    let m = metrics;
    let cover = ["cover", "表紙"];
    assert(cover@.map_values(|w: &str| w@) =~= seq!["cover"@, "表紙"@]);
    let toc = ["toc", "contents", "目次"];
    assert(toc@.map_values(|w: &str| w@) =~= seq!["toc"@, "contents"@, "目次"@]);
    let notice = ["caution", "notice", "copyright"];
    assert(notice@.map_values(|w: &str| w@) =~= seq!["caution"@, "notice"@, "copyright"@]);
    let title_page = ["titlepage", "title-page"];
    assert(title_page@.map_values(|w: &str| w@) =~= seq!["titlepage"@, "title-page"@]);
    let colophon = ["colophon", "奥付"];
    assert(colophon@.map_values(|w: &str| w@) =~= seq!["colophon"@, "奥付"@]);
    if mentions_any(&text, &cover) && m.images > 0 {
        return DocumentRole::Cover;
    }
    if (mentions_any(&text, &toc) && m.links >= 2) || (m.links >= 3 && m.text_chars < 2000) {
        return DocumentRole::Toc;
    }
    if mentions_any(&text, &notice) && m.text_chars < 2000 {
        return DocumentRole::Notice;
    }
    if mentions_any(&text, &title_page) && m.text_chars < 800 {
        return DocumentRole::TitlePage;
    }
    if mentions_any(&text, &colophon) {
        return DocumentRole::Backmatter;
    }
    if m.images > 0 && m.text_chars == 0 {
        return DocumentRole::Illustration;
    }
    DocumentRole::Content
}

} // verus!
