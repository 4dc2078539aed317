//! The bytes placed between inputs, from the value of `--sep=`.
use vstd::prelude::*;

verus! {

/// The line ending of the operating system, which `--sep=EOL` selects.
#[derive(Clone, Copy, PartialEq, Eq, Structural, Debug)]
pub enum LineEnding {
    /// `\n`
    Lf,
    /// `\r\n`
    CrLf,
}

impl LineEnding {
    pub open spec fn spec_bytes(self) -> Seq<u8> {
        match self {
            LineEnding::Lf => seq![0x0Au8],
            LineEnding::CrLf => seq![0x0Du8, 0x0Au8],
        }
    }

    /// The bytes of this line ending.
    pub fn to_bytes(self) -> (v: Vec<u8>)
        ensures
            v@ == self.spec_bytes(),
    {
        match self {
            LineEnding::Lf => vec![0x0Au8],
            LineEnding::CrLf => vec![0x0Du8, 0x0Au8],
        }
    }
}

/// The UTF-8 bytes of the special value `EOL`.
pub open spec fn eol_keyword() -> Seq<u8> {
    seq![0x45u8, 0x4Fu8, 0x4Cu8]
}

/// What a backslash followed by `c` stands for: `\n`, `\r`, `\t`, `\\` and
/// `\0` name one byte each; any other pair is kept as it is.
pub open spec fn escape_value(c: u8) -> Seq<u8> {
    if c == 0x6E {
        seq![0x0Au8]
    } else if c == 0x72 {
        seq![0x0Du8]
    } else if c == 0x74 {
        seq![0x09u8]
    } else if c == 0x5C {
        seq![0x5Cu8]
    } else if c == 0x30 {
        seq![0x00u8]
    } else {
        seq![0x5Cu8, c]
    }
}

/// Whether the bytes `p` stand in `s` at index `i`.
pub open spec fn phrase_at(s: Seq<u8>, i: int, p: Seq<u8>) -> bool {
    0 <= i && i + p.len() <= s.len() && s.subrange(i, i + p.len()) == p
}

pub open spec fn phrase_cr() -> Seq<u8> { seq![35u8, 35u8, 35u8, 35u8, 114u8, 35u8, 35u8, 35u8, 35u8] }
pub open spec fn phrase_lf() -> Seq<u8> { seq![35u8, 35u8, 35u8, 35u8, 110u8, 35u8, 35u8, 35u8, 35u8] }
pub open spec fn phrase_tab() -> Seq<u8> { seq![35u8, 35u8, 35u8, 35u8, 116u8, 35u8, 35u8, 35u8, 35u8] }
pub open spec fn phrase_file() -> Seq<u8> { seq![35u8, 35u8, 35u8, 35u8, 102u8, 105u8, 108u8, 101u8, 35u8, 35u8, 35u8, 35u8] }
pub open spec fn phrase_name() -> Seq<u8> { seq![35u8, 35u8, 35u8, 35u8, 110u8, 97u8, 109u8, 101u8, 35u8, 35u8, 35u8, 35u8] }
pub open spec fn phrase_ext() -> Seq<u8> { seq![35u8, 35u8, 35u8, 35u8, 101u8, 120u8, 116u8, 35u8, 35u8, 35u8, 35u8] }
pub open spec fn phrase_index() -> Seq<u8> { seq![35u8, 35u8, 35u8, 35u8, 105u8, 110u8, 100u8, 101u8, 120u8, 35u8, 35u8, 35u8, 35u8] }
pub open spec fn phrase_total() -> Seq<u8> { seq![35u8, 35u8, 35u8, 35u8, 116u8, 111u8, 116u8, 97u8, 108u8, 35u8, 35u8, 35u8, 35u8] }

/// The bytes of `s` from index `i` on, with the phrases `####r####`,
/// `####n####` and `####t####` replaced by CR, LF and tab, and escape pairs
/// replaced. A backslash at the very end stays as it is. Scanning goes left
/// to right; a phrase is recognised before an escape.
pub open spec fn unescape_from(s: Seq<u8>, i: int) -> Seq<u8>
    decreases s.len() - i,
{
    if i < 0 || i >= s.len() {
        Seq::empty()
    } else if phrase_at(s, i, phrase_cr()) {
        seq![0x0Du8] + unescape_from(s, i + 9)
    } else if phrase_at(s, i, phrase_lf()) {
        seq![0x0Au8] + unescape_from(s, i + 9)
    } else if phrase_at(s, i, phrase_tab()) {
        seq![0x09u8] + unescape_from(s, i + 9)
    } else if s[i] == 0x5C && i + 1 < s.len() {
        escape_value(s[i + 1]) + unescape_from(s, i + 2)
    } else {
        seq![s[i]] + unescape_from(s, i + 1)
    }
}

/// `s` with its fixed phrases and escape pairs replaced.
pub open spec fn unescape(s: Seq<u8>) -> Seq<u8> {
    unescape_from(s, 0)
}

/// The separator that a `--sep=` value stands for, given by the value's UTF-8
/// bytes: the line ending for `EOL`, the unescaped bytes otherwise.
pub open spec fn separator_of(value: Seq<u8>, line_ending: LineEnding) -> Seq<u8> {
    if value == eol_keyword() {
        line_ending.spec_bytes()
    } else {
        unescape(value)
    }
}

fn push_escaped(result: &mut Vec<u8>, c: u8)
    ensures
        final(result)@ == old(result)@ + escape_value(c),
{
    if c == 0x6E {
        result.push(0x0A);
    } else if c == 0x72 {
        result.push(0x0D);
    } else if c == 0x74 {
        result.push(0x09);
    } else if c == 0x5C {
        result.push(0x5C);
    } else if c == 0x30 {
        result.push(0x00);
    } else {
        result.push(0x5C);
        result.push(c);
    }
}

/// Whether the bytes `p` stand in `s` at index `i`.
pub fn has_phrase_at(s: &[u8], i: usize, p: &[u8]) -> (r: bool)
    ensures
        r == phrase_at(s@, i as int, p@),
{
    if i > s.len() || p.len() > s.len() - i {
        return false;
    }
    let mut k: usize = 0;
    while k < p.len()
        invariant
            i + p@.len() <= s@.len(),
            i + p.len() <= s.len(),
            k <= p@.len(),
            forall|j: int| 0 <= j < k ==> s@[i + j] == p@[j],
        decreases p.len() - k,
    {
        if s[i + k] != p[k] {
            assert(s@.subrange(i as int, i + p@.len())[k as int] != p@[k as int]);
            return false;
        }
        k += 1;
    }
    assert(s@.subrange(i as int, i + p@.len()) =~= p@);
    true
}

/// Replaces the fixed phrases and the escape pairs in `bytes`.
pub fn unescape_bytes(bytes: &[u8]) -> (result: Vec<u8>)
    ensures
        result@ == unescape(bytes@),
{
    let p_cr: [u8; 9] = [35u8, 35u8, 35u8, 35u8, 114u8, 35u8, 35u8, 35u8, 35u8];
    let p_lf: [u8; 9] = [35u8, 35u8, 35u8, 35u8, 110u8, 35u8, 35u8, 35u8, 35u8];
    let p_tab: [u8; 9] = [35u8, 35u8, 35u8, 35u8, 116u8, 35u8, 35u8, 35u8, 35u8];
    assert(p_cr@ =~= phrase_cr());
    assert(p_lf@ =~= phrase_lf());
    assert(p_tab@ =~= phrase_tab());
    let mut result: Vec<u8> = Vec::with_capacity(bytes.len());
    let mut index: usize = 0;
    while index < bytes.len()
        invariant
            index <= bytes.len(),
            p_cr@ == phrase_cr(),
            p_lf@ == phrase_lf(),
            p_tab@ == phrase_tab(),
            result@ + unescape_from(bytes@, index as int) == unescape(bytes@),
        decreases bytes.len() - index,
    {
        let ghost before = result@;
        let ghost at = index as int;
        if has_phrase_at(bytes, index, &p_cr) {
            result.push(0x0D);
            index += 8;
        } else if has_phrase_at(bytes, index, &p_lf) {
            result.push(0x0A);
            index += 8;
        } else if has_phrase_at(bytes, index, &p_tab) {
            result.push(0x09);
            index += 8;
        } else if bytes[index] == 0x5C && index + 1 < bytes.len() {
            index += 1;
            push_escaped(&mut result, bytes[index]);
            assert(unescape_from(bytes@, at) == escape_value(bytes@[at + 1]) + unescape_from(bytes@, at + 2));
        } else {
            result.push(bytes[index]);
            assert(unescape_from(bytes@, at) == seq![bytes@[at]] + unescape_from(bytes@, at + 1));
        }
        index += 1;
        assert(result@ + unescape_from(bytes@, index as int) =~= before + unescape_from(bytes@, at));
    }
    assert(unescape_from(bytes@, index as int) =~= Seq::<u8>::empty());
    assert(result@ =~= result@ + Seq::<u8>::empty());
    result
}

fn is_eol_keyword(bytes: &[u8]) -> (r: bool)
    ensures
        r == (bytes@ == eol_keyword()),
{
    let r = bytes.len() == 3 && bytes[0] == 0x45 && bytes[1] == 0x4F && bytes[2] == 0x4C;
    proof {
        if r {
            assert(bytes@ =~= eol_keyword());
        }
    }
    r
}

/// The separator bytes that the `--sep=` value `value` stands for: the
/// operating system's line ending for `EOL`; otherwise the value's bytes with
/// the escapes `\n`, `\r`, `\t`, `\\` and `\0` replaced and every other byte
/// kept. Every value is accepted.
pub fn parse_separator(value: &str, line_ending: LineEnding) -> (r: Result<Vec<u8>, String>)
    ensures
        r is Ok,
        r matches Ok(sep) ==> sep@ == separator_of(vstd::utf8::encode_utf8(value@), line_ending),
{
    let bytes = value.as_bytes();
    if is_eol_keyword(bytes) {
        return Ok(line_ending.to_bytes());
    }
    Ok(unescape_bytes(bytes))
}

proof fn lemma_unescape_from_plain(s: Seq<u8>, i: int)
    requires
        0 <= i <= s.len(),
        forall|k: int| i <= k < s.len() ==> #[trigger] s[k] != 0x5C && s[k] != 0x23,
    ensures
        unescape_from(s, i) == s.subrange(i, s.len() as int),
    decreases s.len() - i,
{
    if i < s.len() {
        lemma_phrase_starts_with_hash(s, i);
        lemma_unescape_from_plain(s, i + 1);
        assert(s.subrange(i, s.len() as int) =~= seq![s[i]] + s.subrange(i + 1, s.len() as int));
    } else {
        assert(s.subrange(i, s.len() as int) =~= Seq::<u8>::empty());
    }
}

proof fn lemma_phrase_starts_with_hash(s: Seq<u8>, i: int)
    requires
        0 <= i < s.len(),
    ensures
        phrase_at(s, i, phrase_cr()) || phrase_at(s, i, phrase_lf()) || phrase_at(s, i, phrase_tab()) ==> s[i] == 0x23,
{
    if phrase_at(s, i, phrase_cr()) {
        assert(s.subrange(i, i + 9)[0] == s[i]);
    }
    if phrase_at(s, i, phrase_lf()) {
        assert(s.subrange(i, i + 9)[0] == s[i]);
    }
    if phrase_at(s, i, phrase_tab()) {
        assert(s.subrange(i, i + 9)[0] == s[i]);
    }
}

proof fn lemma_unescape_from_len(s: Seq<u8>, i: int)
    requires
        0 <= i <= s.len(),
    ensures
        unescape_from(s, i).len() <= s.len() - i,
    decreases s.len() - i,
{
    if i < s.len() {
        if phrase_at(s, i, phrase_cr()) || phrase_at(s, i, phrase_lf()) || phrase_at(s, i, phrase_tab()) {
            lemma_unescape_from_len(s, i + 9);
        } else if s[i] == 0x5C && i + 1 < s.len() {
            lemma_unescape_from_len(s, i + 2);
        } else {
            lemma_unescape_from_len(s, i + 1);
        }
    }
}

/// A separator value without backslashes and `#` (other than `EOL`) is used
/// byte for byte, and decoding never makes a value longer.
pub proof fn lemma_unescape_laws(s: Seq<u8>)
    ensures
        unescape(s).len() <= s.len(),
        (forall|k: int| 0 <= k < s.len() ==> #[trigger] s[k] != 0x5C && s[k] != 0x23) ==> unescape(s) == s,
{
    lemma_unescape_from_len(s, 0);
    if forall|k: int| 0 <= k < s.len() ==> #[trigger] s[k] != 0x5C && s[k] != 0x23 {
        lemma_unescape_from_plain(s, 0);
        assert(s.subrange(0, s.len() as int) =~= s);
    }
}

/// `/` or `\`, which end a path's directory part.
pub open spec fn is_path_separator(b: u8) -> bool {
    b == 0x2F || b == 0x5C
}

/// Where the last component of `p` starts, looking at its first `j` bytes.
pub open spec fn base_start(p: Seq<u8>, j: int) -> int
    decreases j,
{
    if j <= 0 {
        0
    } else if is_path_separator(p[j - 1]) {
        j
    } else {
        base_start(p, j - 1)
    }
}

/// The last component of the path `p`.
pub open spec fn base_name(p: Seq<u8>) -> Seq<u8> {
    p.subrange(base_start(p, p.len() as int), p.len() as int)
}

/// The index of the last `.` among the first `j` bytes of `b`, or -1.
pub open spec fn last_dot(b: Seq<u8>, j: int) -> int
    decreases j,
{
    if j <= 0 {
        -1
    } else if b[j - 1] == 0x2E {
        j - 1
    } else {
        last_dot(b, j - 1)
    }
}

/// The file name of `p` without its extension (a leading dot starts no extension).
pub open spec fn file_stem(p: Seq<u8>) -> Seq<u8> {
    let b = base_name(p);
    let d = last_dot(b, b.len() as int);
    if d > 0 { b.take(d) } else { b }
}

/// The extension of the file name of `p`, without the dot; empty if none.
pub open spec fn file_ext(p: Seq<u8>) -> Seq<u8> {
    let b = base_name(p);
    let d = last_dot(b, b.len() as int);
    if d > 0 { b.skip(d + 1) } else { Seq::empty() }
}

/// `n` in decimal ASCII digits.
pub open spec fn decimal_bytes(n: nat) -> Seq<u8>
    decreases n,
{
    if n < 10 {
        seq![(n + 48) as u8]
    } else {
        decimal_bytes(n / 10).push(((n % 10) + 48) as u8)
    }
}

/// The separator bytes `s` from index `i` on, written before the input
/// `next` (the path and zero-based index of a file, or `None` for standard
/// input) among `total` files: `####file####`, `####name####`,
/// `####ext####` and `####index####` (one-based) stand for that file's
/// path, name, extension and position, and are empty before standard input;
/// `####total####` stands for the number of files.
pub open spec fn render_from(s: Seq<u8>, i: int, next: Option<(Seq<u8>, nat)>, total: nat) -> Seq<u8>
    decreases s.len() - i,
{
    if i < 0 || i >= s.len() {
        Seq::empty()
    } else if phrase_at(s, i, phrase_file()) {
        (match next { Some((p, _)) => p, None => Seq::empty() }) + render_from(s, i + 12, next, total)
    } else if phrase_at(s, i, phrase_name()) {
        (match next { Some((p, _)) => file_stem(p), None => Seq::empty() }) + render_from(s, i + 12, next, total)
    } else if phrase_at(s, i, phrase_ext()) {
        (match next { Some((p, _)) => file_ext(p), None => Seq::empty() }) + render_from(s, i + 11, next, total)
    } else if phrase_at(s, i, phrase_index()) {
        (match next { Some((_, k)) => decimal_bytes(k + 1), None => Seq::empty() }) + render_from(s, i + 13, next, total)
    } else if phrase_at(s, i, phrase_total()) {
        decimal_bytes(total) + render_from(s, i + 13, next, total)
    } else {
        seq![s[i]] + render_from(s, i + 1, next, total)
    }
}

/// The input that follows a separator, as values.
pub open spec fn next_view(next: Option<(&str, usize)>) -> Option<(Seq<u8>, nat)> {
    match next {
        Some((f, k)) => Some((vstd::utf8::encode_utf8(f@), k as nat)),
        None => None,
    }
}

fn base_start_exec(p: &[u8]) -> (r: usize)
    ensures
        r == base_start(p@, p@.len() as int),
{
    let mut j = p.len();
    while j > 0 && !(p[j - 1] == 0x2F || p[j - 1] == 0x5C)
        invariant
            j <= p@.len(),
            base_start(p@, j as int) == base_start(p@, p@.len() as int),
        decreases j,
    {
        j -= 1;
    }
    j
}

fn last_dot_exec(b: &[u8], from: usize) -> (r: Option<usize>)
    requires
        from <= b@.len(),
    ensures ({
        let d = last_dot(b@.subrange(from as int, b@.len() as int), b@.len() - from);
        &&& d < 0 ==> r is None
        &&& d >= 0 ==> r == Some((from + d) as usize)
        &&& r matches Some(x) ==> from <= x < b@.len() && x < b.len()
    }),
{
    let ghost base = b@.subrange(from as int, b@.len() as int);
    let mut j = b.len();
    while j > from && b[j - 1] != 0x2E
        invariant
            from <= j <= b@.len(),
            base == b@.subrange(from as int, b@.len() as int),
            last_dot(base, j - from) == last_dot(base, b@.len() - from),
        decreases j,
    {
        assert(base[j - 1 - from] == b@[j - 1]);
        j -= 1;
    }
    if j == from {
        None
    } else {
        assert(base[j - 1 - from] == b@[j - 1]);
        Some(j - 1)
    }
}

fn push_range(out: &mut Vec<u8>, src: &[u8], a: usize, b: usize)
    requires
        a <= b <= src@.len(),
    ensures
        final(out)@ == old(out)@ + src@.subrange(a as int, b as int),
{
    let ghost start = out@;
    let mut i = a;
    while i < b
        invariant
            a <= i <= b <= src@.len(),
            out@ == start + src@.subrange(a as int, i as int),
        decreases b - i,
    {
        out.push(src[i]);
        i += 1;
        assert(out@ =~= start + src@.subrange(a as int, i as int));
    }
}

fn push_decimal_bytes(out: &mut Vec<u8>, n: usize)
    ensures
        final(out)@ == old(out)@ + decimal_bytes(n as nat),
    decreases n,
{
    if n >= 10 {
        push_decimal_bytes(out, n / 10);
    }
    out.push((n % 10) as u8 + 48);
    assert(((n % 10) as u8 + 48) as int == (n as nat % 10) + 48);
}

/// Pushes the file stem (`stem`) or extension (`!stem`) of the path `p`.
fn push_stem_or_ext(out: &mut Vec<u8>, p: &[u8], stem: bool)
    ensures
        final(out)@ == old(out)@ + if stem { file_stem(p@) } else { file_ext(p@) },
{
    let start = base_start_exec(p);
    proof {
        lemma_base_start_bounds(p@, p@.len() as int);
    }
    let ghost b = base_name(p@);
    assert(b == p@.subrange(start as int, p@.len() as int));
    let ghost dd = last_dot(b, b.len() as int);
    assert(b.len() == p@.len() - start);
    assert(dd == last_dot(p@.subrange(start as int, p@.len() as int), p@.len() - start));
    proof {
        lemma_last_dot_bounds(b, b.len() as int);
    }
    let found = last_dot_exec(p, start);
    match found {
        Some(d) => {
            assert(dd == d - start);
            if d > start {
                if stem {
                    push_range(out, p, start, d);
                    assert(p@.subrange(start as int, d as int) =~= b.take(d - start));
                } else {
                    push_range(out, p, d + 1, p.len());
                    assert(p@.subrange(d + 1, p@.len() as int) =~= b.skip(d - start + 1));
                }
            } else {
                if stem {
                    push_range(out, p, start, p.len());
                } else {
                    assert(old(out)@ + Seq::<u8>::empty() =~= old(out)@);
                }
            }
        },
        None => {
            assert(dd < 0);
            if stem {
                push_range(out, p, start, p.len());
            } else {
                assert(old(out)@ + Seq::<u8>::empty() =~= old(out)@);
            }
        },
    }
}

proof fn lemma_last_dot_bounds(b: Seq<u8>, j: int)
    requires
        0 <= j,
    ensures
        -1 <= last_dot(b, j) < j,
    decreases j,
{
    if j > 0 && b[j - 1] != 0x2E {
        lemma_last_dot_bounds(b, j - 1);
    }
}

proof fn lemma_base_start_bounds(p: Seq<u8>, j: int)
    requires
        0 <= j <= p.len(),
    ensures
        0 <= base_start(p, j) <= j,
    decreases j,
{
    if j > 0 && !is_path_separator(p[j - 1]) {
        lemma_base_start_bounds(p, j - 1);
    }
}

/// The separator `sep` as written before the input `next` (a file's path and
/// zero-based index, or `None` for standard input), with `total` files: the
/// phrases for the file's path, name, extension and one-based index, and for
/// the number of files, replaced.
pub fn render_separator(sep: &[u8], next: Option<(&str, usize)>, total: usize) -> (r: Vec<u8>)
    requires
        next matches Some((_, k)) ==> k < total,
    ensures
        r@ == render_from(sep@, 0, next_view(next), total as nat),
{
    let p_file: [u8; 12] = [35u8, 35u8, 35u8, 35u8, 102u8, 105u8, 108u8, 101u8, 35u8, 35u8, 35u8, 35u8];
    let p_name: [u8; 12] = [35u8, 35u8, 35u8, 35u8, 110u8, 97u8, 109u8, 101u8, 35u8, 35u8, 35u8, 35u8];
    let p_ext: [u8; 11] = [35u8, 35u8, 35u8, 35u8, 101u8, 120u8, 116u8, 35u8, 35u8, 35u8, 35u8];
    let p_index: [u8; 13] = [35u8, 35u8, 35u8, 35u8, 105u8, 110u8, 100u8, 101u8, 120u8, 35u8, 35u8, 35u8, 35u8];
    let p_total: [u8; 13] = [35u8, 35u8, 35u8, 35u8, 116u8, 111u8, 116u8, 97u8, 108u8, 35u8, 35u8, 35u8, 35u8];
    assert(p_file@ =~= phrase_file());
    assert(p_name@ =~= phrase_name());
    assert(p_ext@ =~= phrase_ext());
    assert(p_index@ =~= phrase_index());
    assert(p_total@ =~= phrase_total());
    let ghost nv = next_view(next);
    let mut out: Vec<u8> = Vec::new();
    let mut i: usize = 0;
    while i < sep.len()
        invariant
            i <= sep@.len(),
            p_file@ == phrase_file(),
            p_name@ == phrase_name(),
            p_ext@ == phrase_ext(),
            p_index@ == phrase_index(),
            p_total@ == phrase_total(),
            nv == next_view(next),
            next matches Some((_, k)) ==> k < total,
            out@ + render_from(sep@, i as int, nv, total as nat) == render_from(sep@, 0, nv, total as nat),
        decreases sep.len() - i,
    {
        let ghost before = out@;
        let ghost at = i as int;
        if has_phrase_at(sep, i, &p_file) {
            match next {
                Some((f, _)) => {
                    let fb = f.as_bytes();
                    push_range(&mut out, fb, 0, fb.len());
                    assert(fb@.subrange(0, fb@.len() as int) =~= fb@);
                },
                None => {},
            }
            i += 12;
        } else if has_phrase_at(sep, i, &p_name) {
            match next {
                Some((f, _)) => push_stem_or_ext(&mut out, f.as_bytes(), true),
                None => {},
            }
            i += 12;
        } else if has_phrase_at(sep, i, &p_ext) {
            match next {
                Some((f, _)) => push_stem_or_ext(&mut out, f.as_bytes(), false),
                None => {},
            }
            i += 11;
        } else if has_phrase_at(sep, i, &p_index) {
            match next {
                Some((_, k)) => push_decimal_bytes(&mut out, k + 1),
                None => {},
            }
            i += 13;
        } else if has_phrase_at(sep, i, &p_total) {
            push_decimal_bytes(&mut out, total);
            i += 13;
        } else {
            out.push(sep[i]);
            i += 1;
        }
        assert(out@ + render_from(sep@, i as int, nv, total as nat) =~= before + render_from(sep@, at, nv, total as nat));
    }
    assert(out@ + render_from(sep@, i as int, nv, total as nat) =~= out@);
    out
}

proof fn lemma_render_from_plain(s: Seq<u8>, i: int, next: Option<(Seq<u8>, nat)>, total: nat)
    requires
        0 <= i <= s.len(),
        forall|k: int| i <= k < s.len() ==> #[trigger] s[k] != 0x23,
    ensures
        render_from(s, i, next, total) == s.subrange(i, s.len() as int),
    decreases s.len() - i,
{
    if i < s.len() {
        if phrase_at(s, i, phrase_file()) || phrase_at(s, i, phrase_name()) || phrase_at(s, i, phrase_ext())
            || phrase_at(s, i, phrase_index()) || phrase_at(s, i, phrase_total()) {
            assert(s.subrange(i, i + 11)[0] == s[i]);
        }
        lemma_render_from_plain(s, i + 1, next, total);
        assert(s.subrange(i, s.len() as int) =~= seq![s[i]] + s.subrange(i + 1, s.len() as int));
    } else {
        assert(s.subrange(i, s.len() as int) =~= Seq::<u8>::empty());
    }
}

/// A separator without `#` is written byte for byte, whatever input follows.
pub proof fn lemma_render_plain(s: Seq<u8>, next: Option<(Seq<u8>, nat)>, total: nat)
    requires
        forall|k: int| 0 <= k < s.len() ==> #[trigger] s[k] != 0x23,
    ensures
        render_from(s, 0, next, total) == s,
{
    lemma_render_from_plain(s, 0, next, total);
    assert(s.subrange(0, s.len() as int) =~= s);
}


proof fn lemma_last_dot_facts(b: Seq<u8>, j: int)
    requires
        0 <= j <= b.len(),
    ensures
        -1 <= last_dot(b, j) < j,
        last_dot(b, j) >= 0 ==> b[last_dot(b, j)] == 0x2E,
        forall|k: int| last_dot(b, j) < k < j ==> #[trigger] b[k] != 0x2E,
    decreases j,
{
    if j > 0 && b[j - 1] != 0x2E {
        lemma_last_dot_facts(b, j - 1);
    }
}

proof fn lemma_base_start_facts(p: Seq<u8>, j: int)
    requires
        0 <= j <= p.len(),
    ensures
        0 <= base_start(p, j) <= j,
        base_start(p, j) > 0 ==> (p[base_start(p, j) - 1] == 0x2F || p[base_start(p, j) - 1] == 0x5C),
        forall|k: int| base_start(p, j) <= k < j ==> #[trigger] p[k] != 0x2F && p[k] != 0x5C,
    decreases j,
{
    if j > 0 && !is_path_separator(p[j - 1]) {
        lemma_base_start_facts(p, j - 1);
    }
}

/// How a path splits into the parts that the phrases name. The file name is
/// the end of the path after its last `/` or `\`, and holds neither. Where
/// the file name has a `.` after its first byte, the name is the part before
/// the last such dot, and the extension the part after it, which holds no
/// dot; otherwise the name is the whole file name and the extension is empty.
pub proof fn lemma_path_parts(p: Seq<u8>)
    ensures ({
        let b = base_name(p);
        let k = p.len() - b.len();
        &&& 0 <= k <= p.len()
        &&& b == p.skip(k)
        &&& k > 0 ==> (p[k - 1] == 0x2F || p[k - 1] == 0x5C)
        &&& forall|i: int| 0 <= i < b.len() ==> #[trigger] b[i] != 0x2F && b[i] != 0x5C
        &&& (exists|i: int| 0 < i < b.len() && #[trigger] b[i] == 0x2E) ==> {
            &&& file_stem(p) + seq![0x2Eu8] + file_ext(p) == b
            &&& file_stem(p).len() > 0
            &&& forall|i: int| 0 <= i < file_ext(p).len() ==> #[trigger] file_ext(p)[i] != 0x2E
        }
        &&& (forall|i: int| 0 < i < b.len() ==> #[trigger] b[i] != 0x2E) ==> {
            &&& file_stem(p) == b
            &&& file_ext(p).len() == 0
        }
    }),
{
    let n = p.len() as int;
    lemma_base_start_facts(p, n);
    let bs = base_start(p, n);
    let b = base_name(p);
    assert(b.len() == n - bs);
    assert(b =~= p.skip(bs));
    assert forall|i: int| 0 <= i < b.len() implies #[trigger] b[i] != 0x2F && b[i] != 0x5C by {
        assert(b[i] == p[bs + i]);
    }
    lemma_last_dot_facts(b, b.len() as int);
    let d = last_dot(b, b.len() as int);
    if exists|i: int| 0 < i < b.len() && #[trigger] b[i] == 0x2E {
        let i = choose|i: int| 0 < i < b.len() && #[trigger] b[i] == 0x2E;
        assert(d >= i);
        assert(b.take(d) + seq![0x2Eu8] + b.skip(d + 1) =~= b);
        assert forall|k: int| 0 <= k < file_ext(p).len() implies #[trigger] file_ext(p)[k] != 0x2E by {
            assert(file_ext(p)[k] == b[d + 1 + k]);
        }
    }
    if forall|i: int| 0 < i < b.len() ==> #[trigger] b[i] != 0x2E {
        assert(d <= 0);
    }
}

} // verus!
