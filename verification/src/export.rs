//! A vocabulary export: the words chosen, once each, with the sentence they
//! stand in, their JLPT levels and definitions, and a hash of the source text.
use vstd::prelude::*;
use crate::dictionary::model::DictEntry;
use crate::cache::{lower_hex, sha256, source_hash};
use crate::text::{chars_of, push_str, str_eq, string_from_range};
use vstd::string::StringSliceAdditionalSpecFns;

verus! {

/// The root of an exported vocabulary file.
#[derive(Debug)]
pub struct ExportRoot {
    pub version: String,
    pub exported_at: String,
    pub source_text_hash: String,
    pub entries: Vec<ExportEntryJson>,
}

/// One exported word with its context and definitions.
#[derive(Debug)]
pub struct ExportEntryJson {
    pub surface: String,
    pub base_form: String,
    pub reading: String,
    pub pos: String,
    pub grammar_tags: Vec<String>,
    pub jlpt_levels: Vec<u8>,
    pub context: ExportContext,
    pub definitions: Vec<DictEntry>,
    pub user_note: String,
}

/// The sentence of an occurrence and where the word stands in it.
#[derive(Debug, PartialEq, Eq)]
pub struct ExportContext {
    pub sentence: String,
    pub highlight_range: (usize, usize),
}

/// Characters that end a sentence.
pub open spec fn terminator(c: char) -> bool {
    c == '。' || c == '！' || c == '?' || c == '？' || c == '!' || c == '\n' || c == '\r'
}

/// Where the sentence holding position `start` begins: after the last terminator before it.
pub open spec fn sentence_start(chars: Seq<char>, start: int) -> int
    decreases start,
{
    if start <= 0 {
        0
    } else if terminator(chars[start - 1]) {
        start
    } else {
        sentence_start(chars, start - 1)
    }
}

/// Where the sentence holding position `end` stops: at the first terminator from it.
pub open spec fn sentence_stop(chars: Seq<char>, end: int) -> int
    decreases chars.len() - end,
{
    if end >= chars.len() {
        chars.len() as int
    } else if terminator(chars[end]) {
        end
    } else {
        sentence_stop(chars, end + 1)
    }
}

/// The sentence around a character range, with its terminator unless that is
/// a line break, and the range within it; an invalid range gives the whole text.
pub open spec fn sentence_around(text: Seq<char>, range: (usize, usize)) -> (Seq<char>, (int, int)) {
    let (s, e) = (range.0 as int, range.1 as int);
    if s >= text.len() || e > text.len() || s > e {
        (text, (0, text.len() as int))
    } else {
        let start = sentence_start(text, s);
        let stop = sentence_stop(text, e);
        let actual = if stop < text.len() && text[stop] != '\n' && text[stop] != '\r' { stop + 1 } else { stop };
        (text.subrange(start, actual), (s - start, e - start))
    }
}

proof fn lemma_sentence_start(chars: Seq<char>, start: int)
    requires
        0 <= start <= chars.len(),
    ensures
        0 <= sentence_start(chars, start) <= start,
        forall|k: int| sentence_start(chars, start) <= k < start ==> !terminator(#[trigger] chars[k]),
        sentence_start(chars, start) == 0 || terminator(chars[sentence_start(chars, start) - 1]),
    decreases start,
{
    if start > 0 && !terminator(chars[start - 1]) {
        lemma_sentence_start(chars, start - 1);
    }
}

proof fn lemma_sentence_stop(chars: Seq<char>, end: int)
    requires
        0 <= end <= chars.len(),
    ensures
        end <= sentence_stop(chars, end) <= chars.len(),
        forall|k: int| end <= k < sentence_stop(chars, end) ==> !terminator(#[trigger] chars[k]),
        sentence_stop(chars, end) == chars.len() || terminator(chars[sentence_stop(chars, end)]),
    decreases chars.len() - end,
{
    if end < chars.len() && !terminator(chars[end]) {
        lemma_sentence_stop(chars, end + 1);
    }
}

proof fn lemma_marks(c: char)
    ensures
        terminator(c) <==> "。！?？!\n\r"@.contains(c),
{
    reveal_strlit("。！?？!\n\r");
    let m = "。！?？!\n\r"@;
    if terminator(c) {
        if c == '。' {
            assert(m[0] == c);
        } else if c == '！' {
            assert(m[1] == c);
        } else if c == '?' {
            assert(m[2] == c);
        } else if c == '？' {
            assert(m[3] == c);
        } else if c == '!' {
            assert(m[4] == c);
        } else if c == '\n' {
            assert(m[5] == c);
        } else {
            assert(m[6] == c);
        }
    }
}

/// For a valid range, the sentence is the stretch of the text around the
/// range, and the range points at the same characters in it; no sentence
/// mark (。！?？! or a line break) stands in it before the range, nor after
/// the range but as its last character; it begins at the start of the text
/// or right after such a mark, and ends at the end of the text, before a
/// line break, or with the mark that closes it.
pub proof fn law_sentence_around_range(text: Seq<char>, range: (usize, usize))
    requires
        range.0 < text.len(),
        range.1 <= text.len(),
        range.0 <= range.1,
    ensures
        ({
            let marks = "。！?？!\n\r"@;
            let (sentence, (a, b)) = sentence_around(text, range);
            let start = range.0 - a;
            let stop = start + sentence.len();
            &&& 0 <= start <= range.0
            &&& b == range.1 - start
            &&& stop <= text.len()
            &&& b <= sentence.len()
            &&& sentence == text.subrange(start, stop)
            &&& forall|k: int| 0 <= k < a ==> !marks.contains(#[trigger] sentence[k])
            &&& forall|k: int| b <= k < sentence.len() - 1 ==> !marks.contains(#[trigger] sentence[k])
            &&& (start == 0 || marks.contains(text[start - 1]))
            &&& (stop == text.len() || text[stop] == '\n' || text[stop] == '\r' || (b < sentence.len()
                && marks.contains(sentence[sentence.len() - 1])))
        }),
{
    let (s, e) = (range.0 as int, range.1 as int);
    lemma_sentence_start(text, s);
    lemma_sentence_stop(text, e);
    let st = sentence_start(text, s);
    let sp = sentence_stop(text, e);
    let sentence = sentence_around(text, range).0;
    assert forall|k: int| 0 <= k < sentence.len() implies #[trigger] sentence[k] == text[st + k] by {}
    assert forall|k: int| 0 <= k < s - st implies !"。！?？!\n\r"@.contains(#[trigger] sentence[k]) by {
        assert(sentence[k] == text[st + k]);
        lemma_marks(text[st + k]);
    }
    assert forall|k: int| e - st <= k < sentence.len() - 1 implies !"。！?？!\n\r"@.contains(#[trigger] sentence[k]) by {
        assert(sentence[k] == text[st + k]);
        lemma_marks(text[st + k]);
    }
    if st > 0 {
        lemma_marks(text[st - 1]);
    }
    if sp < text.len() {
        lemma_marks(text[sp]);
    }
}

fn is_terminator(c: char) -> (b: bool)
    ensures
        b == terminator(c),
{
    c == '。' || c == '！' || c == '?' || c == '？' || c == '!' || c == '\n' || c == '\r'
}

pub fn extract_sentence_and_offset(text: &str, range: (usize, usize)) -> (r: (String, (usize, usize)))
    ensures
        (r.0@, (r.1.0 as int, r.1.1 as int)) == sentence_around(text@, range),
        range.0 < text@.len() && range.1 <= text@.len() && range.0 <= range.1 ==> {
            &&& r.1.1 - r.1.0 == range.1 - range.0
            &&& forall|k: int| 0 <= k < r.1.0 ==> !"。！?？!\n\r"@.contains(#[trigger] r.0@[k])
        },
{
    proof {
        if range.0 < text@.len() && range.1 <= text@.len() && range.0 <= range.1 {
            law_sentence_around_range(text@, range);
        }
    }
    let chars = chars_of(text);
    let (start_char, end_char) = range;
    if start_char >= chars.len() || end_char > chars.len() || start_char > end_char {
        return (text.to_owned(), (0, chars.len()));
    }
    proof {
        lemma_sentence_start(chars@, start_char as int);
        lemma_sentence_stop(chars@, end_char as int);
    }
    let mut sentence_begin = start_char;
    while sentence_begin > 0 && !is_terminator(chars[sentence_begin - 1])
        invariant
            sentence_begin <= start_char < chars.len(),
            sentence_start(chars@, start_char as int) == sentence_start(chars@, sentence_begin as int),
        decreases sentence_begin,
    {
        sentence_begin -= 1;
    }
    let mut sentence_end = end_char;
    while sentence_end < chars.len() && !is_terminator(chars[sentence_end])
        invariant
            end_char <= sentence_end <= chars.len(),
            sentence_stop(chars@, end_char as int) == sentence_stop(chars@, sentence_end as int),
        decreases chars.len() - sentence_end,
    {
        sentence_end += 1;
    }
    let mut actual_end = sentence_end;
    if actual_end < chars.len() && chars[actual_end] != '\n' && chars[actual_end] != '\r' {
        actual_end += 1;
    }
    let sentence = string_from_range(chars.as_slice(), sentence_begin, actual_end);
    (sentence, (start_char - sentence_begin, end_char - sentence_begin))
}

/// A word chosen for export: its forms, tags and levels, where it stands in
/// the source (or a context given with it), its definitions and a note.
#[derive(Debug)]
pub struct ExportEntry {
    pub surface: String,
    pub base_form: String,
    pub reading: String,
    pub pos: String,
    pub grammar_tags: Vec<String>,
    pub jlpt_levels: Vec<u8>,
    pub char_range: Option<(usize, usize)>,
    pub context_sentence: String,
    pub context_highlight: (usize, usize),
    pub definitions: Vec<DictEntry>,
    pub user_note: String,
}

/// Two entries name the same word: same base form and reading.
pub open spec fn same_word(a: ExportEntry, b: ExportEntry) -> bool {
    a.base_form@ == b.base_form@ && a.reading@ == b.reading@
}

/// The entries, each word kept at its first entry.
pub open spec fn first_of_each_word(entries: Seq<ExportEntry>) -> Seq<ExportEntry>
    decreases entries.len(),
{
    if entries.len() == 0 {
        seq![]
    } else {
        let kept = first_of_each_word(entries.drop_last());
        if exists|k: int| 0 <= k < kept.len() && same_word(#[trigger] kept[k], entries.last()) {
            kept
        } else {
            kept.push(entries.last())
        }
    }
}

/// `v` lists the levels of `levels` in increasing order, each once.
pub open spec fn sorted_levels(v: Seq<u8>, levels: Seq<u8>) -> bool {
    &&& forall|i: int, j: int| 0 <= i < j < v.len() ==> v[i] < v[j]
    &&& forall|x: u8| v.contains(x) <==> levels.contains(x)
}

/// The context of an entry: the sentence around its place in the text, or
/// the context it came with.
pub open spec fn context_of(e: ExportEntry, text: Seq<char>) -> (Seq<char>, (int, int)) {
    match e.char_range {
        Some(range) => sentence_around(text, range),
        None => (e.context_sentence@, (e.context_highlight.0 as int, e.context_highlight.1 as int)),
    }
}

/// `out` is how entry `e` of a text is exported.
pub open spec fn exported(out: ExportEntryJson, e: ExportEntry, text: Seq<char>) -> bool {
    &&& out.surface == e.surface
    &&& out.base_form == e.base_form
    &&& out.reading == e.reading
    &&& out.pos == e.pos
    &&& out.grammar_tags == e.grammar_tags
    &&& sorted_levels(out.jlpt_levels@, e.jlpt_levels@)
    &&& (out.context.sentence@, (out.context.highlight_range.0 as int, out.context.highlight_range.1 as int)) == context_of(e, text)
    &&& out.definitions == e.definitions
    &&& out.user_note == e.user_note
}

fn insert_level(v: &mut Vec<u8>, x: u8)
    requires
        forall|i: int, j: int| 0 <= i < j < old(v)@.len() ==> old(v)@[i] < old(v)@[j],
    ensures
        forall|i: int, j: int| 0 <= i < j < final(v)@.len() ==> final(v)@[i] < final(v)@[j],
        forall|y: u8| final(v)@.contains(y) <==> (old(v)@.contains(y) || y == x),
{
    let ghost o = v@;
    let mut p: usize = 0;
    while p < v.len() && v[p] < x
        invariant
            v@ == o,
            p <= o.len(),
            forall|k: int| 0 <= k < p ==> o[k] < x,
        decreases o.len() - p,
    {
        p += 1;
    }
    if p < v.len() && v[p] == x {
        assert(o[p as int] == x);
        assert(o.contains(x));
        return;
    }
    v.insert(p, x);
    assert(v@ =~= o.insert(p as int, x));
    assert forall|y: u8| #[trigger] v@.contains(y) implies (o.contains(y) || y == x) by {
        let k = choose|k: int| 0 <= k < v@.len() && v@[k] == y;
        if k < p { assert(o[k] == y); } else if k > p { assert(o[k - 1] == y); }
    }
    assert forall|y: u8| #[trigger] o.contains(y) implies v@.contains(y) by {
        let k = choose|k: int| 0 <= k < o.len() && o[k] == y;
        if k < p { assert(v@[k] == y); } else { assert(v@[k + 1] == y); }
    }
    assert(v@[p as int] == x);
    assert(v@.contains(x));
    assert(o == old(v)@);
}

fn sort_levels(levels: &Vec<u8>) -> (r: Vec<u8>)
    ensures
        sorted_levels(r@, levels@),
{
    let mut r: Vec<u8> = Vec::new();
    for i in 0..levels.len()
        invariant
            forall|a: int, b: int| 0 <= a < b < r@.len() ==> r@[a] < r@[b],
            forall|y: u8| r@.contains(y) <==> levels@.take(i as int).contains(y),
    {
        insert_level(&mut r, levels[i]);
        assert forall|y: u8| levels@.take(i + 1).contains(y) <==> (levels@.take(i as int).contains(y) || y == levels@[i as int]) by {
            if levels@.take(i + 1).contains(y) {
                let t = levels@.take(i + 1);
                let k = choose|k: int| 0 <= k < t.len() && t[k] == y;
                if k < i { assert(levels@.take(i as int)[k] == y); }
            }
            if levels@.take(i as int).contains(y) {
                let t = levels@.take(i as int);
                let k = choose|k: int| 0 <= k < t.len() && t[k] == y;
                assert(levels@.take(i + 1)[k] == y);
            }
            if y == levels@[i as int] { assert(levels@.take(i + 1)[i as int] == y); }
        }
    }
    assert(levels@.take(levels.len() as int) =~= levels@);
    r
}

fn export_entry(e: ExportEntry, text: &str) -> (r: ExportEntryJson)
    ensures
        exported(r, e, text@),
{
    let (sentence, highlight) = match e.char_range {
        Some(range) => extract_sentence_and_offset(text, range),
        None => (e.context_sentence.clone(), e.context_highlight),
    };
    let jlpt_levels = sort_levels(&e.jlpt_levels);
    ExportEntryJson {
        surface: e.surface,
        base_form: e.base_form,
        reading: e.reading,
        pos: e.pos,
        grammar_tags: e.grammar_tags,
        jlpt_levels,
        context: ExportContext { sentence, highlight_range: highlight },
        definitions: e.definitions,
        user_note: e.user_note,
    }
}

/// The export of the chosen words of a text, `canonical_text` being the text
/// as the reader shows it: version 1.0, the time given, the SHA-256 of the
/// text, and each word once (its first entry), with its sentence, its JLPT
/// levels in order without repeats, its definitions and note.
pub fn export_root(canonical_text: &str, entries: Vec<ExportEntry>, exported_at: String) -> (r: ExportRoot)
    ensures
        r.version@ == "1.0"@,
        r.exported_at@ == exported_at@,
        r.source_text_hash@ == "sha256:"@ + lower_hex(sha256(canonical_text.spec_bytes())),
        ({
            let unique = first_of_each_word(entries@);
            &&& r.entries@.len() == unique.len()
            &&& forall|k: int| 0 <= k < unique.len() ==> exported(#[trigger] r.entries@[k], unique[k], canonical_text@)
        }),
{
    let ghost all = entries@;
    let mut entries = entries;
    let n = entries.len();
    let mut out: Vec<ExportEntryJson> = Vec::new();
    let mut keys: Vec<(String, String)> = Vec::new();
    let mut k: usize = 0;
    while k < n
        invariant
            k <= n == all.len(),
            entries@ == all.skip(k as int),
            out@.len() == keys@.len() == first_of_each_word(all.take(k as int)).len(),
            forall|m: int| 0 <= m < keys@.len() ==> (#[trigger] keys@[m]).0@ == first_of_each_word(all.take(k as int))[m].base_form@
                && keys@[m].1@ == first_of_each_word(all.take(k as int))[m].reading@,
            forall|m: int| 0 <= m < out@.len() ==> exported(#[trigger] out@[m], first_of_each_word(all.take(k as int))[m], canonical_text@),
        decreases n - k,
    {
        assert(all.take(k + 1).drop_last() =~= all.take(k as int));
        assert(entries@[0] == all[k as int]);
        let e = entries.remove(0);
        assert(entries@ =~= all.skip(k + 1));
        let ghost kept = first_of_each_word(all.take(k as int));
        let mut seen = false;
        let mut j: usize = 0;
        while j < keys.len()
            invariant
                j <= keys@.len() == kept.len(),
                forall|m: int| 0 <= m < keys@.len() ==> (#[trigger] keys@[m]).0@ == kept[m].base_form@ && keys@[m].1@ == kept[m].reading@,
                seen ==> exists|m: int| 0 <= m < kept.len() && same_word(#[trigger] kept[m], e),
                !seen ==> forall|m: int| 0 <= m < j ==> !same_word(#[trigger] kept[m], e),
            decreases keys@.len() - j,
        {
            if str_eq(keys[j].0.as_str(), e.base_form.as_str()) && str_eq(keys[j].1.as_str(), e.reading.as_str()) {
                assert(same_word(kept[j as int], e));
                seen = true;
            }
            j += 1;
        }
        if !seen {
            assert(first_of_each_word(all.take(k + 1)) == kept.push(e));
            let key = (e.base_form.clone(), e.reading.clone());
            keys.push(key);
            let ghost ev = e;
            let json = export_entry(e, canonical_text);
            let ghost prev = out@;
            out.push(json);
            assert forall|m: int| 0 <= m < out@.len() implies exported(#[trigger] out@[m], kept.push(ev)[m], canonical_text@) by {
                if m < kept.len() { assert(out@[m] == prev[m]); }
            }
        } else {
            assert(first_of_each_word(all.take(k + 1)) == kept);
        }
        k += 1;
    }
    assert(all.take(n as int) =~= all);
    let mut hash = String::new();
    push_str(&mut hash, "sha256:");
    let digest = source_hash(canonical_text);
    push_str(&mut hash, digest.as_str());
    let mut version = String::new();
    push_str(&mut version, "1.0");
    ExportRoot { version, exported_at, source_text_hash: hash, entries: out }
}

} // verus!
