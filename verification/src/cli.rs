//! The decisions of the command-line tools: chapter selection in Markdown
//! sources, sampling, index lists and the deterministic generator of the
//! consistency runs.
use vstd::prelude::*;
use crate::dictionary::lookup_state::{spec_trim, trim_chars};
use crate::import::epub::{find_pattern, find_seq, first_index, starts_with, trim_leading};
use crate::text::{chars_of, push_str, str_eq, string_from_chars, string_from_range};

verus! {

/// `s` without trailing `\r` and `\n`.
pub open spec fn trim_end_newlines(s: Seq<char>) -> Seq<char>
    decreases s.len(),
{
    if s.len() > 0 && (s.last() == '\r' || s.last() == '\n') {
        trim_end_newlines(s.drop_last())
    } else {
        s
    }
}

/// Whether a line is the level-two heading `requested`.
pub open spec fn heading_line(line: Seq<char>, requested: Seq<char>) -> bool {
    let title = spec_trim(trim_end_newlines(line));
    starts_with(title, "## "@) && spec_trim(title.skip(3)) == requested
}

/// The length of the first line of `s`, its line break included.
pub open spec fn first_line_len(s: Seq<char>) -> int {
    match first_index(s, '\n') {
        Some(p) => p + 1,
        None => s.len() as int,
    }
}

/// Where the body after the first heading line `requested` starts.
pub open spec fn heading_body_start(s: Seq<char>, requested: Seq<char>) -> Option<int>
    decreases s.len(),
{
    if s.len() == 0 {
        None
    } else {
        let k = first_line_len(s);
        if heading_line(s.take(k), requested) {
            Some(k)
        } else if k <= 0 || k > s.len() {
            None
        } else {
            match heading_body_start(s.skip(k), requested) {
                Some(j) => Some(k + j),
                None => None,
            }
        }
    }
}

/// The chapter title a request names: trimmed, leading `#` dropped, trimmed.
pub open spec fn requested_title(chapter: Seq<char>) -> Seq<char> {
    spec_trim(trim_leading(spec_trim(chapter), '#'))
}

/// The body of the requested chapter: from its heading line to the next
/// level-two heading; the whole source when no chapter is requested.
pub open spec fn chapter_text(source: Seq<char>, chapter: Option<Seq<char>>) -> Option<Seq<char>> {
    match chapter {
        None => Some(source),
        Some(c) => match heading_body_start(source, requested_title(c)) {
            None => None,
            Some(b) => {
                let body = source.skip(b);
                let end = match find_seq(body, "\n## "@) {
                    Some(e) => e,
                    None => body.len() as int,
                };
                Some(body.take(end))
            },
        },
    }
}

proof fn lemma_first_line_len(s: Seq<char>)
    requires
        s.len() > 0,
    ensures
        0 < first_line_len(s) <= s.len(),
{
    crate::import::epub::lemma_first_index_pub(s, '\n');
}

proof fn lemma_heading_body_start_range(s: Seq<char>, requested: Seq<char>)
    ensures
        match heading_body_start(s, requested) {
            Some(b) => 0 <= b <= s.len(),
            None => true,
        },
    decreases s.len(),
{
    if s.len() > 0 {
        lemma_first_line_len(s);
        let k = first_line_len(s);
        lemma_heading_body_start_range(s.skip(k), requested);
    }
}

fn trim_end_newlines_exec(s: &[char]) -> (r: Vec<char>)
    ensures
        r@ == trim_end_newlines(s@),
{
    let mut j: usize = s.len();
    assert(s@.take(j as int) == s@);
    while j > 0 && (s[j - 1] == '\r' || s[j - 1] == '\n')
        invariant
            j <= s.len(),
            trim_end_newlines(s@) == trim_end_newlines(s@.take(j as int)),
        decreases j,
    {
        assert(s@.take(j as int).drop_last() == s@.take(j - 1));
        j -= 1;
    }
    let kept = string_from_range(s, 0, j);
    assert(kept@ == s@.take(j as int));
    chars_of(kept.as_str())
}

fn is_heading_line(line: &[char], requested: &Vec<char>) -> (b: bool)
    ensures
        b == heading_line(line@, requested@),
{
    let stripped = trim_end_newlines_exec(line);
    let title = trim_chars(stripped.as_slice());
    let prefix = chars_of("## ");
    proof {
        reveal_strlit("## ");
    }
    let starts = crate::text::matches_at(title.as_slice(), 0, prefix.as_slice());
    assert(prefix@.len() <= title@.len() ==> title@.subrange(0, prefix@.len() as int) == title@.take(prefix@.len() as int));
    if !starts {
        return false;
    }
    let rest = string_from_range(title.as_slice(), 3, title.len());
    assert(rest@ == title@.skip(3));
    let value = trim_chars(chars_of(rest.as_str()).as_slice());
    crate::dictionary::lookup_state::chars_equal_pub(&value, requested)
}

/// Picks one `## ` chapter of a Markdown source, or the whole source.
pub fn extract_chapter(source: &str, chapter: Option<&str>) -> (r: Result<String, String>)
    ensures
        match r {
            Ok(text) => chapter_text(source@, crate::import::epub::opt_str(chapter)) == Some(text@),
            Err(message) => chapter_text(source@, crate::import::epub::opt_str(chapter)) is None
                && message@ == "找不到章节标题："@ + chapter->0@,
        },
{
    let title = match chapter {
        None => {
            return Ok(source.to_owned());
        },
        Some(c) => c,
    };
    assert(crate::import::epub::opt_str(chapter) == Some(title@));
    let first = trim_chars(chars_of(title).as_slice());
    let hashless = crate::import::epub::trim_leading_pub(first.as_slice(), '#');
    let requested = trim_chars(hashless.as_slice());
    let s = chars_of(source);
    let mut i: usize = 0;
    assert(s@.skip(0) == s@);
    while i < s.len()
        invariant
            i <= s.len(),
            requested@ == requested_title(title@),
            crate::import::epub::opt_str(chapter) == Some(title@),
            s@ == source@,
            heading_body_start(s@, requested@) == match heading_body_start(s@.skip(i as int), requested@) {
                Some(j) => Some(j + i),
                None => None,
            },
        decreases s.len() - i,
    {
        let ghost rest = s@.skip(i as int);
        proof {
            lemma_first_line_len(rest);
            crate::import::epub::lemma_first_index_pub(rest, '\n');
        }
        let mut k: usize = i;
        while k < s.len() && s[k] != '\n'
            invariant
                i <= k <= s.len(),
                forall|m: int| i <= m < k ==> s@[m] != '\n',
            decreases s.len() - k,
        {
            k += 1;
        }
        let line_end = if k < s.len() { k + 1 } else { k };
        proof {
            if k < s.len() {
                assert(rest[k - i] == '\n');
                assert forall|m: int| 0 <= m < k - i implies rest[m] != '\n' by {
                    assert(rest[m] == s@[m + i]);
                }
                crate::import::epub::lemma_first_index_unique(rest, '\n', k - i);
            } else {
                assert forall|m: int| 0 <= m < rest.len() implies rest[m] != '\n' by {
                    assert(rest[m] == s@[m + i]);
                }
                crate::import::epub::lemma_first_index_none(rest, '\n');
            }
            assert(first_line_len(rest) == line_end - i);
        }
        let line = string_from_range(s.as_slice(), i, line_end);
        let line_chars = chars_of(line.as_str());
        assert(line_chars@ == rest.take(line_end - i));
        if is_heading_line(line_chars.as_slice(), &requested) {
            assert(heading_body_start(rest, requested@) == Some(line_end - i));
            assert(heading_body_start(s@, requested@) == Some(line_end as int));
            let text = chapter_from(&s, line_end);
            return Ok(text);
        }
        assert(rest.skip(line_end - i) == s@.skip(line_end as int));
        i = line_end;
    }
    assert(s@.skip(i as int).len() == 0);
    let mut message = String::new();
    push_str(&mut message, "找不到章节标题：");
    push_str(&mut message, title);
    Err(message)
}

/// The chapter body from `start` up to the next level-two heading.
fn chapter_from(s: &Vec<char>, start: usize) -> (r: String)
    requires
        start <= s.len(),
    ensures
        r@ == ({
            let body = s@.skip(start as int);
            body.take(
                match find_seq(body, "\n## "@) {
                    Some(e) => e,
                    None => body.len() as int,
                },
            )
        }),
{
    let body = string_from_range(s.as_slice(), start, s.len());
    assert(body@ == s@.skip(start as int));
    let body_chars = chars_of(body.as_str());
    let marker = chars_of("\n## ");
    proof {
        crate::import::epub::lemma_find_seq_range_pub(body_chars@, marker@);
    }
    let end = match find_pattern(body_chars.as_slice(), marker.as_slice()) {
        Some(e) => e,
        None => body_chars.len(),
    };
    let chapter_body = string_from_range(body_chars.as_slice(), 0, end);
    assert(chapter_body@ == body_chars@.take(end as int));
    chapter_body
}


/// A benchmark sample: the first `max_characters` characters (all when 0).
pub fn limit_benchmark_text(text: &str, max_characters: usize) -> (r: String)
    ensures
        r@ == if max_characters == 0 || text@.len() <= max_characters { text@ } else { text@.take(max_characters as int) },
{
    let chars = chars_of(text);
    if max_characters == 0 || chars.len() <= max_characters {
        return text.to_owned();
    }
    let kept = string_from_range(chars.as_slice(), 0, max_characters);
    assert(kept@ == chars@.take(max_characters as int));
    kept
}

/// The parts of speech that carry lexical meaning.
pub open spec fn lexical_pos(pos: Seq<char>) -> bool {
    pos == "名詞"@ || pos == "動詞"@ || pos == "形容詞"@ || pos == "副詞"@ || pos == "連体詞"@
        || pos == "接頭詞"@ || pos == "感動詞"@ || pos == "接続詞"@
}

pub fn is_lexical(pos: &str) -> (b: bool)
    ensures
        b == lexical_pos(pos@),
{
    str_eq(pos, "名詞") || str_eq(pos, "動詞") || str_eq(pos, "形容詞") || str_eq(pos, "副詞") || str_eq(
        pos,
        "連体詞",
    ) || str_eq(pos, "接頭詞") || str_eq(pos, "感動詞") || str_eq(pos, "接続詞")
}

/// One xorshift64 step (shifts 13, 7, 17).
pub open spec fn xorshift(v: u64) -> u64 {
    let a = v ^ ((v << 13u64) as u64);
    let b = a ^ (a >> 7u64);
    b ^ ((b << 17u64) as u64)
}

/// A seeded xorshift64 generator, so that sampled runs repeat exactly.
pub struct DeterministicRng(pub u64);

impl DeterministicRng {
    /// A generator seeded with `seed` (0 counts as 1, which xorshift needs).
    pub fn new(seed: u64) -> (r: Self)
        ensures
            r.0 == if seed == 0 { 1 } else { seed },
    {
        DeterministicRng(if seed < 1 { 1 } else { seed })
    }

    /// The next value; it is also the new state.
    pub fn next_u64(&mut self) -> (r: u64)
        ensures
            r == xorshift(old(self).0),
            final(self).0 == r,
    {
        let mut value = self.0;
        value = value ^ (value << 13u64);
        value = value ^ (value >> 7u64);
        value = value ^ (value << 17u64);
        self.0 = value;
        value
    }

    /// A value below `upper` (0 when `upper` is 0), from the next state.
    pub fn usize(&mut self, upper: usize) -> (r: usize)
        ensures
            upper == 0 ==> r == 0 && final(self).0 == old(self).0,
            upper > 0 ==> final(self).0 == xorshift(old(self).0) && r == (xorshift(old(self).0) as usize) % upper,
    {
        if upper == 0 {
            0
        } else {
            let next = self.next_u64();
            (next as usize) % upper
        }
    }
}

/// The smallest range start.
pub open spec fn min_start(ranges: Seq<(usize, usize)>) -> int
    decreases ranges.len(),
{
    if ranges.len() == 0 {
        0
    } else if ranges.len() == 1 {
        ranges[0].0 as int
    } else {
        let m = min_start(ranges.drop_last());
        if (ranges.last().0 as int) < m { ranges.last().0 as int } else { m }
    }
}

/// The largest range end.
pub open spec fn max_end(ranges: Seq<(usize, usize)>) -> int
    decreases ranges.len(),
{
    if ranges.len() == 0 {
        0
    } else if ranges.len() == 1 {
        ranges[0].1 as int
    } else {
        let m = max_end(ranges.drop_last());
        if (ranges.last().1 as int) > m { ranges.last().1 as int } else { m }
    }
}

pub open spec fn opens_at(ranges: Seq<(usize, usize)>, i: int) -> bool {
    exists|k: int| 0 <= k < ranges.len() && ranges[k].0 == i
}

pub open spec fn closes_at(ranges: Seq<(usize, usize)>, i: int) -> bool {
    exists|k: int| 0 <= k < ranges.len() && ranges[k].1 == i
}

/// The characters `start..end` with `【` before each range start and `】` after each range end.
pub open spec fn marked(chars: Seq<char>, ranges: Seq<(usize, usize)>, start: int, end: int) -> Seq<char>
    decreases end - start,
{
    if end <= start {
        seq![]
    } else {
        marked(chars, ranges, start, end - 1) + (if opens_at(ranges, end - 1) { seq!['【'] } else { seq![] })
            + seq![chars[end - 1]] + (if closes_at(ranges, end) { seq!['】'] } else { seq![] })
    }
}

/// The matched ranges shown in their context of `padding` characters, on one line.
pub open spec fn matched_context(text: Seq<char>, ranges: Seq<(usize, usize)>, padding: usize) -> Seq<char> {
    if ranges.len() == 0 {
        seq![]
    } else {
        let start = if min_start(ranges) > padding { min_start(ranges) - padding } else { 0 };
        let wide = max_end(ranges) + padding;
        let capped = if wide > usize::MAX { usize::MAX as int } else { wide };
        let end = if capped < text.len() { capped } else { text.len() as int };
        crate::import::epub::replace_char(
            crate::import::epub::replace_char(marked(text, ranges, start, end), '\n', ' '),
            '\r',
            ' ',
        )
    }
}

fn any_start(ranges: &[(usize, usize)], i: usize) -> (b: bool)
    ensures
        b == opens_at(ranges@, i as int),
{
    let mut k: usize = 0;
    while k < ranges.len()
        invariant
            k <= ranges.len(),
            forall|m: int| 0 <= m < k ==> ranges@[m].0 != i,
        decreases ranges.len() - k,
    {
        if ranges[k].0 == i {
            return true;
        }
        k += 1;
    }
    false
}

fn any_end(ranges: &[(usize, usize)], i: usize) -> (b: bool)
    ensures
        b == closes_at(ranges@, i as int),
{
    let mut k: usize = 0;
    while k < ranges.len()
        invariant
            k <= ranges.len(),
            forall|m: int| 0 <= m < k ==> ranges@[m].1 != i,
        decreases ranges.len() - k,
    {
        if ranges[k].1 == i {
            return true;
        }
        k += 1;
    }
    false
}

pub fn render_matched_context(text: &str, ranges: &[(usize, usize)], padding: usize) -> (r: String)
    ensures
        r@ == matched_context(text@, ranges@, padding),
{
    if ranges.len() == 0 {
        return String::new();
    }
    let chars = chars_of(text);
    let mut lowest = ranges[0].0;
    let mut highest = ranges[0].1;
    let mut k: usize = 1;
    assert(ranges@.take(1) =~= seq![ranges@[0]]);
    while k < ranges.len()
        invariant
            1 <= k <= ranges.len(),
            lowest == min_start(ranges@.take(k as int)),
            highest == max_end(ranges@.take(k as int)),
        decreases ranges.len() - k,
    {
        assert(ranges@.take(k + 1).drop_last() == ranges@.take(k as int));
        if ranges[k].0 < lowest {
            lowest = ranges[k].0;
        }
        if ranges[k].1 > highest {
            highest = ranges[k].1;
        }
        k += 1;
    }
    assert(ranges@.take(ranges.len() as int) == ranges@);
    let start = lowest.saturating_sub(padding);
    let wide = highest.saturating_add(padding);
    let end = if wide < chars.len() { wide } else { chars.len() };
    let mut output: Vec<char> = Vec::new();
    let mut index = start;
    if start < end {
        while index < end
            invariant
                start <= index <= end <= chars.len(),
                output@ == marked(chars@, ranges@, start as int, index as int),
            decreases end - index,
        {
            if any_start(ranges, index) {
                output.push('【');
            }
            output.push(chars[index]);
            if any_end(ranges, index + 1) {
                output.push('】');
            }
            index += 1;
        }
    }
    assert(start >= end ==> marked(chars@, ranges@, start as int, end as int) == Seq::<char>::empty());
    let lines = crate::import::epub::replace_char_pub(output.as_slice(), '\n', ' ');
    let joined = crate::import::epub::replace_char_pub(lines.as_slice(), '\r', ' ');
    string_from_chars(joined.as_slice())
}


pub open spec fn is_digit(c: char) -> bool {
    '0' <= c <= '9'
}

pub open spec fn all_digits(s: Seq<char>) -> bool {
    forall|k: int| 0 <= k < s.len() ==> is_digit(#[trigger] s[k])
}

/// The value of a string of decimal digits.
pub open spec fn digits_value(s: Seq<char>) -> nat
    decreases s.len(),
{
    if s.len() == 0 {
        0
    } else {
        digits_value(s.drop_last()) * 10 + (s.last() as u32 - '0' as u32) as nat
    }
}

/// A non-negative integer as `str::parse::<usize>` reads it: an optional
/// `+`, then at least one digit and nothing else, within range.
pub open spec fn parsed_usize(s: Seq<char>) -> Option<usize> {
    let body = if s.len() > 0 && s[0] == '+' { s.drop_first() } else { s };
    if body.len() > 0 && all_digits(body) && digits_value(body) <= usize::MAX {
        Some(digits_value(body) as usize)
    } else {
        None
    }
}

proof fn lemma_digits_value_monotone(s: Seq<char>, i: int)
    requires
        0 <= i <= s.len(),
        forall|k: int| 0 <= k < s.len() ==> is_digit(#[trigger] s[k]),
    ensures
        digits_value(s.take(i)) <= digits_value(s),
    decreases s.len() - i,
{
    if i < s.len() {
        lemma_digits_value_monotone(s, i + 1);
        assert(s.take(i + 1).drop_last() == s.take(i));
    } else {
        assert(s.take(i) == s);
    }
}

proof fn lemma_overflow_rejects(body: Seq<char>, i: int, prefix_value: int)
    requires
        0 <= i < body.len(),
        prefix_value == digits_value(body.take(i + 1)),
        prefix_value > usize::MAX,
    ensures
        !(all_digits(body) && digits_value(body) <= usize::MAX),
{
    if all_digits(body) {
        lemma_digits_value_monotone(body, i + 1);
    }
}

pub(crate) fn parse_usize(s: &[char]) -> (r: Option<usize>)
    ensures
        r == parsed_usize(s@),
{
    let mut start: usize = 0;
    if s.len() > 0 && s[0] == '+' {
        start = 1;
    }
    let ghost body = if s@.len() > 0 && s@[0] == '+' { s@.drop_first() } else { s@ };
    assert(body == s@.skip(start as int));
    if start >= s.len() {
        return None;
    }
    let mut value: usize = 0;
    let mut i: usize = start;
    while i < s.len()
        invariant
            start <= i <= s.len(),
            body == s@.skip(start as int),
            body == (if s@.len() > 0 && s@[0] == '+' { s@.drop_first() } else { s@ }),
            body.len() > 0,
            forall|k: int| start <= k < i ==> is_digit(#[trigger] s@[k]),
            value == digits_value(body.take(i - start)),
        decreases s.len() - i,
    {
        assert(body.take(i - start + 1).drop_last() == body.take(i - start));
        assert(body.take(i - start + 1).last() == s@[i as int]);
        let c = s[i];
        assert(body[i - start] == s@[i as int]);
        if !('0' <= c && c <= '9') {
            assert(!is_digit(body[i - start]));
            assert(!all_digits(body));
            return None;
        }
        let d = (c as u32 - '0' as u32) as usize;
        let times = value.checked_mul(10);
        match times {
            Some(t) => {
                match t.checked_add(d) {
                    Some(v) => {
                        value = v;
                    },
                    None => {
                        proof {
                            lemma_overflow_rejects(body, i - start, t + d);
                        }
                        return None;
                    },
                }
            },
            None => {
                proof {
                    lemma_overflow_rejects(body, i - start, value * 10 + d);
                }
                return None;
            },
        }
        i += 1;
    }
    assert(body.take(i - start) == body);
    Some(value)
}


/// The numbers of a comma-separated list, blank items skipped; the first
/// item that is not a number is the error.
pub open spec fn index_list(parts: Seq<Seq<char>>) -> Result<Seq<usize>, Seq<char>>
    decreases parts.len(),
{
    if parts.len() == 0 {
        Ok(seq![])
    } else {
        match index_list(parts.drop_last()) {
            Err(e) => Err(e),
            Ok(v) => {
                let t = spec_trim(parts.last());
                if t.len() == 0 {
                    Ok(v)
                } else {
                    match parsed_usize(t) {
                        Some(n) => Ok(v.push(n)),
                        None => Err(t),
                    }
                }
            },
        }
    }
}

/// Reads a list like `3, 5,,8`; the error names the item that is not a number.
pub fn parse_index_list(value: Option<&str>) -> (r: Result<Vec<usize>, String>)
    ensures
        match value {
            None => r matches Ok(v) && v@.len() == 0,
            Some(text) => match index_list(crate::dictionary::lookup_state::split_pieces(text@, ',')) {
                Ok(expected) => r matches Ok(v) && v@ == expected,
                Err(item) => r matches Err(e) && e@ == item,
            },
        },
{
    let text = match value {
        None => {
            return Ok(Vec::new());
        },
        Some(t) => t,
    };
    let chars = chars_of(text);
    let parts = crate::dictionary::lookup_state::split_char(&chars, ',');
    let ghost pv = parts@.map_values(|p: Vec<char>| p@);
    assert(pv =~= crate::dictionary::lookup_state::split_pieces(text@, ','));
    let mut out: Vec<usize> = Vec::new();
    let mut i: usize = 0;
    while i < parts.len()
        invariant
            i <= parts.len(),
            pv == parts@.map_values(|p: Vec<char>| p@),
            value == Some(text),
            pv == crate::dictionary::lookup_state::split_pieces(text@, ','),
            index_list(pv.take(i as int)) == Ok::<Seq<usize>, Seq<char>>(out@),
        decreases parts.len() - i,
    {
        assert(pv.take(i + 1).drop_last() == pv.take(i as int));
        assert(pv.take(i + 1).last() == parts@[i as int]@);
        let trimmed = trim_chars(parts[i].as_slice());
        if trimmed.len() > 0 {
            match parse_usize(trimmed.as_slice()) {
                Some(n) => {
                    out.push(n);
                },
                None => {
                    proof {
                        lemma_index_list_error(pv, i as int + 1);
                    }
                    return Err(string_from_chars(trimmed.as_slice()));
                },
            }
        }
        i += 1;
    }
    assert(pv.take(parts.len() as int) == pv);
    Ok(out)
}

proof fn lemma_index_list_error(parts: Seq<Seq<char>>, n: int)
    requires
        0 <= n <= parts.len(),
        index_list(parts.take(n)) is Err,
    ensures
        index_list(parts) == index_list(parts.take(n)),
    decreases parts.len() - n,
{
    if n < parts.len() {
        assert(parts.take(n + 1).drop_last() == parts.take(n));
        lemma_index_list_error(parts, n + 1);
    } else {
        assert(parts.take(n) == parts);
    }
}

} // verus!
