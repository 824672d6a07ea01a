//! Character level text handling shared by the grammar readers and the lexer:
//! whitespace, splitting at a separator, line splitting, prefixes and the
//! conversion between `String` and `Vec<char>`.
use vstd::prelude::*;
use vstd::string::*;

verus! {

/// The characters that carry Unicode's `White_Space` property (the table of
/// `char::is_whitespace`).
pub open spec fn is_whitespace_spec(c: char) -> bool {
    let u = c as u32;
    ||| 0x09 <= u <= 0x0D
    ||| u == 0x20
    ||| u == 0x85
    ||| u == 0xA0
    ||| u == 0x1680
    ||| 0x2000 <= u <= 0x200A
    ||| u == 0x2028
    ||| u == 0x2029
    ||| u == 0x202F
    ||| u == 0x205F
    ||| u == 0x3000
}

pub fn is_whitespace(c: char) -> (r: bool)
    ensures
        r == is_whitespace_spec(c),
{
    let u = c as u32;
    (0x09 <= u && u <= 0x0D) || u == 0x20 || u == 0x85 || u == 0xA0 || u == 0x1680 || (0x2000 <= u
        && u <= 0x200A) || u == 0x2028 || u == 0x2029 || u == 0x202F || u == 0x205F || u == 0x3000
}

/// Every character of `s` is whitespace: `s` trims to the empty string.
pub open spec fn is_blank_spec(s: Seq<char>) -> bool {
    forall|i: int| 0 <= i < s.len() ==> is_whitespace_spec(#[trigger] s[i])
}

pub fn is_blank(s: &Vec<char>) -> (r: bool)
    ensures
        r == is_blank_spec(s@),
{
    let mut i: usize = 0;
    while i < s.len()
        invariant
            i <= s@.len(),
            forall|j: int| 0 <= j < i ==> is_whitespace_spec(#[trigger] s@[j]),
        decreases s@.len() - i,
    {
        if !is_whitespace(s[i]) {
            return false;
        }
        i += 1;
    }
    true
}

/// The number of whitespace characters at the front of `s`.
pub open spec fn leading_whitespace(s: Seq<char>) -> nat
    decreases s.len(),
{
    if s.len() > 0 && is_whitespace_spec(s[0]) {
        1 + leading_whitespace(s.drop_first())
    } else {
        0
    }
}

pub proof fn lemma_leading_whitespace(s: Seq<char>, k: int)
    requires
        0 <= k <= s.len(),
        forall|j: int| 0 <= j < k ==> is_whitespace_spec(#[trigger] s[j]),
    ensures
        k == s.len() || !is_whitespace_spec(s[k]) ==> leading_whitespace(s) == k,
        k <= leading_whitespace(s) <= s.len(),
    decreases k,
{
    if k > 0 {
        let t = s.drop_first();
        assert forall|j: int| 0 <= j < k - 1 implies is_whitespace_spec(#[trigger] t[j]) by {
            assert(t[j] == s[j + 1]);
        }
        lemma_leading_whitespace(t, k - 1);
        if k < s.len() {
            assert(t[k - 1] == s[k]);
        }
    } else {
        lemma_leading_whitespace_bound(s);
    }
}

pub proof fn lemma_leading_whitespace_bound(s: Seq<char>)
    ensures
        leading_whitespace(s) <= s.len(),
    decreases s.len(),
{
    if s.len() > 0 {
        lemma_leading_whitespace_bound(s.drop_first());
    }
}

/// Counts the whitespace characters at the front of `s`.
pub fn count_leading_whitespace(s: &Vec<char>) -> (r: usize)
    ensures
        r == leading_whitespace(s@),
{
    let mut i: usize = 0;
    while i < s.len() && is_whitespace(s[i])
        invariant
            i <= s@.len(),
            forall|j: int| 0 <= j < i ==> is_whitespace_spec(#[trigger] s@[j]),
        decreases s@.len() - i,
    {
        i += 1;
    }
    proof {
        lemma_leading_whitespace(s@, i as int);
    }
    i
}

/// `sep` occurs in `s` at position `i`.
pub open spec fn occurs_at(s: Seq<char>, sep: Seq<char>, i: int) -> bool {
    0 <= i && i + sep.len() <= s.len() && s.subrange(i, i + sep.len()) == sep
}

/// The pieces of `s` between the non-overlapping occurrences of `sep`, found
/// from left to right; the current piece started at `start` and the scan is at
/// `i` (`str::split` with a string pattern).
pub open spec fn split_scan(s: Seq<char>, sep: Seq<char>, start: int, i: int) -> Seq<Seq<char>>
    recommends
        sep.len() > 0,
        0 <= start <= i <= s.len(),
    decreases s.len() - i,
{
    if sep.len() == 0 || i < 0 || i + sep.len() > s.len() {
        seq![s.subrange(start, s.len() as int)]
    } else if occurs_at(s, sep, i) {
        seq![s.subrange(start, i)] + split_scan(s, sep, i + sep.len(), i + sep.len())
    } else {
        split_scan(s, sep, start, i + 1)
    }
}

/// `s` split at every occurrence of `sep`.
pub open spec fn split_spec(s: Seq<char>, sep: Seq<char>) -> Seq<Seq<char>> {
    split_scan(s, sep, 0, 0)
}

pub proof fn lemma_split_scan_nonempty(s: Seq<char>, sep: Seq<char>, start: int, i: int)
    ensures
        split_scan(s, sep, start, i).len() >= 1,
    decreases s.len() - i,
{
    if sep.len() == 0 || i < 0 || i + sep.len() > s.len() {
    } else if occurs_at(s, sep, i) {
        lemma_split_scan_nonempty(s, sep, i + sep.len(), i + sep.len());
    } else {
        lemma_split_scan_nonempty(s, sep, start, i + 1);
    }
}

/// Whether `sep` occurs in `s` at `i`.
pub fn matches_at(s: &Vec<char>, sep: &Vec<char>, i: usize) -> (r: bool)
    ensures
        r == occurs_at(s@, sep@, i as int),
{
    if sep.len() > s.len() || i > s.len() - sep.len() {
        return false;
    }
    let mut k: usize = 0;
    while k < sep.len()
        invariant
            i + sep@.len() <= s@.len(),
            s@.len() <= usize::MAX,
            k <= sep@.len(),
            forall|j: int| 0 <= j < k ==> s@[i + j] == sep@[j],
        decreases sep@.len() - k,
    {
        if s[i + k] != sep[k] {
            proof {
                assert(s@.subrange(i as int, i + sep@.len())[k as int] != sep@[k as int]);
            }
            return false;
        }
        k += 1;
    }
    assert(s@.subrange(i as int, i + sep@.len()) =~= sep@);
    true
}

/// Copies `s[from..to]`.
pub fn slice_chars(s: &Vec<char>, from: usize, to: usize) -> (r: Vec<char>)
    requires
        from <= to <= s@.len(),
    ensures
        r@ == s@.subrange(from as int, to as int),
{
    let mut r: Vec<char> = Vec::new();
    let mut k = from;
    while k < to
        invariant
            from <= k <= to <= s@.len(),
            r@ == s@.subrange(from as int, k as int),
        decreases to - k,
    {
        r.push(s[k]);
        k += 1;
        assert(r@ =~= s@.subrange(from as int, k as int));
    }
    r
}

/// Splits `s` at every occurrence of the non-empty separator `sep`.
pub fn split_chars(s: &Vec<char>, sep: &Vec<char>) -> (r: Vec<Vec<char>>)
    requires
        sep@.len() > 0,
    ensures
        r@.map_values(|v: Vec<char>| v@) == split_spec(s@, sep@),
{
    let mut pieces: Vec<Vec<char>> = Vec::new();
    let mut start: usize = 0;
    let mut i: usize = 0;
    while sep.len() <= s.len() && i <= s.len() - sep.len()
        invariant
            sep@.len() > 0,
            start <= i <= s@.len(),
            pieces@.map_values(|v: Vec<char>| v@) + split_scan(s@, sep@, start as int, i as int)
                == split_spec(s@, sep@),
        decreases s@.len() - i,
    {
        if matches_at(s, sep, i) {
            let piece = slice_chars(s, start, i);
            let ghost old_pieces = pieces@.map_values(|v: Vec<char>| v@);
            pieces.push(piece);
            assert(pieces@.map_values(|v: Vec<char>| v@) =~= old_pieces.push(
                s@.subrange(start as int, i as int),
            ));
            i = i + sep.len();
            start = i;
        } else {
            i = i + 1;
        }
    }
    let piece = slice_chars(s, start, s.len());
    let ghost old_pieces = pieces@.map_values(|v: Vec<char>| v@);
    pieces.push(piece);
    assert(pieces@.map_values(|v: Vec<char>| v@) =~= old_pieces.push(
        s@.subrange(start as int, s@.len() as int),
    ));
    pieces
}

/// `String::push`: appends `c` to `s`.
#[verifier::external_body]
fn push_char(s: &mut String, c: char)
    ensures
        final(s)@ == old(s)@.push(c),
{
    s.push(c);
}

/// The characters of `s`.
pub fn to_chars(s: &str) -> (r: Vec<char>)
    ensures
        r@ == s@,
{
    let n = s.unicode_len();
    let mut r: Vec<char> = Vec::new();
    let mut i: usize = 0;
    while i < n
        invariant
            n == s@.len(),
            i <= n,
            r@ == s@.take(i as int),
        decreases n - i,
    {
        let c = s.get_char(i);
        r.push(c);
        i += 1;
        assert(r@ =~= s@.take(i as int));
    }
    assert(s@.take(n as int) =~= s@);
    r
}

/// The string made of the characters of `v`.
pub fn from_chars(v: &[char]) -> (r: String)
    ensures
        r@ == v@,
{
    let mut r = String::new();
    let mut i: usize = 0;
    while i < v.len()
        invariant
            i <= v@.len(),
            r@ == v@.take(i as int),
        decreases v@.len() - i,
    {
        push_char(&mut r, v[i]);
        i += 1;
        assert(r@ =~= v@.take(i as int));
    }
    assert(v@.take(v@.len() as int) =~= v@);
    r
}

/// Whether `s` begins with `prefix`.
pub fn starts_with(s: &Vec<char>, prefix: &Vec<char>) -> (r: bool)
    ensures
        r == (prefix@.len() <= s@.len() && s@.take(prefix@.len() as int) == prefix@),
{
    let r = matches_at(s, prefix, 0);
    proof {
        if prefix@.len() <= s@.len() {
            assert(s@.subrange(0, prefix@.len() as int) =~= s@.take(prefix@.len() as int));
        }
    }
    r
}

/// `s` with one trailing carriage return removed.
pub open spec fn strip_cr(s: Seq<char>) -> Seq<char> {
    if s.len() > 0 && s.last() == '\r' {
        s.drop_last()
    } else {
        s
    }
}

/// The lines of `s` (`str::lines`): the pieces between line feeds, each
/// without the carriage return that preceded its line feed; a last piece that
/// is empty is no line.
pub open spec fn lines_spec(s: Seq<char>) -> Seq<Seq<char>> {
    let pieces = split_spec(s, seq!['\n']);
    let body = pieces.drop_last().map_values(|p: Seq<char>| strip_cr(p));
    if pieces.last().len() == 0 {
        body
    } else {
        body.push(pieces.last())
    }
}

/// Splits `s` into its lines.
pub fn lines(s: &Vec<char>) -> (r: Vec<Vec<char>>)
    ensures
        r@.map_values(|v: Vec<char>| v@) == lines_spec(s@),
{
    let mut sep: Vec<char> = Vec::new();
    sep.push('\n');
    assert(sep@ =~= seq!['\n']);
    let pieces = split_chars(s, &sep);
    let ghost pv = pieces@.map_values(|v: Vec<char>| v@);
    proof {
        lemma_split_scan_nonempty(s@, sep@, 0, 0);
    }
    let n = pieces.len();
    let mut r: Vec<Vec<char>> = Vec::new();
    let mut i: usize = 0;
    while i + 1 < n
        invariant
            n == pieces@.len(),
            n >= 1,
            pv == pieces@.map_values(|v: Vec<char>| v@),
            i < n,
            r@.map_values(|v: Vec<char>| v@) == pv.take(i as int).map_values(
                |p: Seq<char>| strip_cr(p),
            ),
        decreases n - i,
    {
        let piece = &pieces[i];
        let mut line = slice_chars(piece, 0, piece.len());
        assert(line@ =~= piece@);
        if line.len() > 0 && line[line.len() - 1] == '\r' {
            line.pop();
        }
        let ghost before = r@.map_values(|v: Vec<char>| v@);
        r.push(line);
        assert(r@.map_values(|v: Vec<char>| v@) =~= before.push(line@));
        i += 1;
        assert(pv.take(i as int) =~= pv.take(i - 1).push(pv[i - 1]));
        assert(r@.map_values(|v: Vec<char>| v@) =~= pv.take(i as int).map_values(
            |p: Seq<char>| strip_cr(p),
        ));
    }
    assert(pv.take(i as int) =~= pv.drop_last());
    let last = &pieces[n - 1];
    if last.len() > 0 {
        let line = slice_chars(last, 0, last.len());
        assert(pv[n - 1] == last@);
        assert(line@ =~= pv.last());
        let ghost before = r@.map_values(|v: Vec<char>| v@);
        r.push(line);
        assert(r@.map_values(|v: Vec<char>| v@) =~= before.push(pv.last()));
    }
    r
}

/// The views of a sequence of strings.
pub open spec fn strs(v: Seq<String>) -> Seq<Seq<char>> {
    v.map_values(|s: String| s@)
}

/// The view of an optional string.
pub open spec fn opt_str(o: Option<String>) -> Option<Seq<char>> {
    match o {
        Some(s) => Some(s@),
        None => None,
    }
}

/// The views of a sequence of character vectors.
pub open spec fn char_vecs(v: Seq<Vec<char>>) -> Seq<Seq<char>> {
    v.map_values(|s: Vec<char>| s@)
}

/// The members of `ls` that are not blank, in order.
pub open spec fn non_blank(ls: Seq<Seq<char>>) -> Seq<Seq<char>>
    decreases ls.len(),
{
    if ls.len() == 0 {
        ls
    } else if is_blank_spec(ls.last()) {
        non_blank(ls.drop_last())
    } else {
        non_blank(ls.drop_last()).push(ls.last())
    }
}

/// The non-blank lines of a grammar file, whose lines end with "\r\n".
pub open spec fn grammar_lines(text: Seq<char>) -> Seq<Seq<char>> {
    non_blank(split_spec(text, seq!['\r', '\n']))
}

/// Splits the text of a grammar file into its non-blank lines.
pub fn read_grammar_lines(text: &str) -> (r: Vec<Vec<char>>)
    ensures
        char_vecs(r@) == grammar_lines(text@),
{
    let chars = to_chars(text);
    let mut sep: Vec<char> = Vec::new();
    sep.push('\r');
    sep.push('\n');
    assert(sep@ =~= seq!['\r', '\n']);
    let pieces = split_chars(&chars, &sep);
    let ghost pv = char_vecs(pieces@);
    let mut r: Vec<Vec<char>> = Vec::new();
    let mut i: usize = 0;
    while i < pieces.len()
        invariant
            pv == char_vecs(pieces@),
            pv == split_spec(text@, seq!['\r', '\n']),
            i <= pieces@.len(),
            char_vecs(r@) == non_blank(pv.take(i as int)),
        decreases pieces@.len() - i,
    {
        assert(pv.take(i + 1).drop_last() =~= pv.take(i as int));
        assert(pv.take(i + 1).last() == pieces@[i as int]@);
        if !is_blank(&pieces[i]) {
            let line = slice_chars(&pieces[i], 0, pieces[i].len());
            assert(line@ =~= pieces@[i as int]@);
            let ghost before = char_vecs(r@);
            r.push(line);
            assert(char_vecs(r@) =~= before.push(line@));
        }
        i += 1;
    }
    assert(pv.take(pieces@.len() as int) =~= pv);
    r
}

/// The first piece of `line` before " = " and the piece after it: the two
/// sides of a grammar rule.
pub open spec fn rule_sides(line: Seq<char>) -> Seq<Seq<char>> {
    split_spec(line, seq![' ', '=', ' '])
}

/// `line` holds " = ", so that it has a right side.
pub open spec fn has_rule_sides(line: Seq<char>) -> bool {
    rule_sides(line).len() >= 2
}

/// Splits a grammar line at " = ".
pub fn split_rule_sides(line: &Vec<char>) -> (r: Vec<Vec<char>>)
    ensures
        char_vecs(r@) == rule_sides(line@),
{
    let mut sep: Vec<char> = Vec::new();
    sep.push(' ');
    sep.push('=');
    sep.push(' ');
    assert(sep@ =~= seq![' ', '=', ' ']);
    split_chars(line, &sep)
}

/// Whether two lists of strings hold the same strings.
pub fn strings_equal(a: &Vec<String>, b: &Vec<String>) -> (r: bool)
    ensures
        r == (strs(a@) == strs(b@)),
{
    if a.len() != b.len() {
        proof {
            assert(strs(a@).len() != strs(b@).len());
        }
        return false;
    }
    let mut i: usize = 0;
    while i < a.len()
        invariant
            a@.len() == b@.len(),
            i <= a@.len(),
            forall|j: int| 0 <= j < i ==> a@[j]@ == b@[j]@,
        decreases a@.len() - i,
    {
        if a[i] != b[i] {
            proof {
                assert(strs(a@)[i as int] != strs(b@)[i as int]);
            }
            return false;
        }
        i += 1;
    }
    assert(strs(a@) =~= strs(b@));
    true
}

/// A copy of a list of strings.
pub fn clone_strings(a: &Vec<String>) -> (r: Vec<String>)
    ensures
        strs(r@) == strs(a@),
{
    let mut r: Vec<String> = Vec::new();
    let mut i: usize = 0;
    while i < a.len()
        invariant
            i <= a@.len(),
            strs(r@) == strs(a@).take(i as int),
        decreases a@.len() - i,
    {
        let ghost before = strs(r@);
        r.push(a[i].clone());
        assert(strs(r@) =~= before.push(a@[i as int]@));
        i += 1;
        assert(strs(a@).take(i as int) =~= strs(a@).take(i - 1).push(strs(a@)[i - 1]));
    }
    assert(strs(a@).take(a@.len() as int) =~= strs(a@));
    r
}

/// The decimal digit of `d`, for `d` below ten.
pub open spec fn digit_char(d: nat) -> char {
    if d == 0 { '0' } else if d == 1 { '1' } else if d == 2 { '2' } else if d == 3 { '3' } else if d == 4 {
        '4'
    } else if d == 5 { '5' } else if d == 6 { '6' } else if d == 7 { '7' } else if d == 8 { '8' } else { '9' }
}

/// The decimal writing of `n`, without leading zeros ("0" for zero).
pub open spec fn decimal(n: nat) -> Seq<char>
    decreases n,
{
    if n < 10 {
        seq![digit_char(n)]
    } else {
        decimal(n / 10).push(digit_char(n % 10))
    }
}

fn digit(d: usize) -> (r: char)
    requires
        d < 10,
    ensures
        r == digit_char(d as nat),
{
    if d == 0 { '0' } else if d == 1 { '1' } else if d == 2 { '2' } else if d == 3 { '3' } else if d == 4 {
        '4'
    } else if d == 5 { '5' } else if d == 6 { '6' } else if d == 7 { '7' } else if d == 8 { '8' } else { '9' }
}

/// Appends the decimal writing of `n` to `s`.
pub fn push_decimal(s: &mut String, n: usize)
    ensures
        final(s)@ == old(s)@ + decimal(n as nat),
    decreases n,
{
    if n < 10 {
        push_char(s, digit(n));
        assert(decimal(n as nat) =~= seq![digit_char(n as nat)]);
    } else {
        push_decimal(s, n / 10);
        push_char(s, digit(n % 10));
        assert(old(s)@ + decimal(n as nat) =~= old(s)@ + decimal((n / 10) as nat) + seq![digit_char((n % 10) as nat)]);
    }
}

/// The strings `parts` with `sep` between each two.
pub open spec fn join(parts: Seq<Seq<char>>, sep: Seq<char>) -> Seq<char>
    decreases parts.len(),
{
    if parts.len() == 0 {
        Seq::empty()
    } else if parts.len() == 1 {
        parts[0]
    } else {
        join(parts.drop_last(), sep) + sep + parts.last()
    }
}

/// The strings of `parts` with `sep` between each two.
pub fn join_strings(parts: &Vec<String>, sep: &str) -> (r: String)
    ensures
        r@ == join(strs(parts@), sep@),
{
    let mut r = String::new();
    let mut i: usize = 0;
    while i < parts.len()
        invariant
            i <= parts@.len(),
            r@ == join(strs(parts@.take(i as int)), sep@),
        decreases parts@.len() - i,
    {
        proof {
            assert(strs(parts@.take(i + 1)).drop_last() =~= strs(parts@.take(i as int)));
            assert(strs(parts@.take(i + 1)).last() == parts@[i as int]@);
        }
        if i > 0 {
            r.append(sep);
        }
        r.append(parts[i].as_str());
        proof {
            if i == 0 {
                assert(strs(parts@.take(1)).len() == 1);
                assert(r@ =~= parts@[0]@);
            }
        }
        i += 1;
    }
    assert(parts@.take(parts@.len() as int) =~= parts@);
    r
}

/// The number of bytes of the UTF-8 encoding of `c`.
pub open spec fn utf8_width(c: char) -> nat {
    let u = c as u32;
    if u < 0x80 {
        1
    } else if u < 0x800 {
        2
    } else if u < 0x10000 {
        3
    } else {
        4
    }
}

/// The number of bytes of the UTF-8 encoding of `s`.
pub open spec fn utf8_len(s: Seq<char>) -> nat
    decreases s.len(),
{
    if s.len() == 0 {
        0
    } else {
        utf8_len(s.drop_last()) + utf8_width(s.last())
    }
}

/// `b` is the number of bytes of some prefix of `s`: a boundary between its
/// characters.
pub open spec fn char_boundary(s: Seq<char>, b: nat) -> bool {
    exists|k: int| 0 <= k <= s.len() && utf8_len(#[trigger] s.take(k)) == b
}

pub fn utf8_width_of(c: char) -> (r: usize)
    ensures
        r == utf8_width(c),
{
    let u = c as u32;
    if u < 0x80 {
        1
    } else if u < 0x800 {
        2
    } else if u < 0x10000 {
        3
    } else {
        4
    }
}

pub proof fn lemma_utf8_len_add(a: Seq<char>, b: Seq<char>)
    ensures
        utf8_len(a + b) == utf8_len(a) + utf8_len(b),
    decreases b.len(),
{
    if b.len() == 0 {
        assert(a + b =~= a);
    } else {
        assert((a + b).drop_last() =~= a + b.drop_last());
        lemma_utf8_len_add(a, b.drop_last());
    }
}

pub proof fn lemma_utf8_len_at_least(s: Seq<char>)
    ensures
        utf8_len(s) >= s.len(),
    decreases s.len(),
{
    if s.len() > 0 {
        lemma_utf8_len_at_least(s.drop_last());
    }
}

/// Longer prefixes have more bytes.
pub proof fn lemma_utf8_len_prefix(s: Seq<char>, j: int, k: int)
    requires
        0 <= j < k <= s.len(),
    ensures
        utf8_len(s.take(j)) < utf8_len(s.take(k)),
{
    lemma_utf8_len_add(s.take(j), s.subrange(j, k));
    assert(s.take(j) + s.subrange(j, k) =~= s.take(k));
    lemma_utf8_len_at_least(s.subrange(j, k));
}

/// The number of characters of the prefix of `s` with `b` bytes, when `b`
/// falls between two characters.
pub fn chars_for_bytes(s: &Vec<char>, b: usize) -> (r: usize)
    requires
        char_boundary(s@, b as nat),
    ensures
        r <= s@.len(),
        utf8_len(s@.take(r as int)) == b,
{
    let ghost k = choose|k: int| 0 <= k <= s@.len() && utf8_len(#[trigger] s@.take(k)) == b;
    let mut i: usize = 0;
    let mut bytes: usize = 0;
    let n = s.len();
    while bytes < b
        invariant
            n == s@.len(),
            0 <= k <= s@.len(),
            utf8_len(s@.take(k)) == b,
            i <= k,
            bytes == utf8_len(s@.take(i as int)),
        decreases k - i,
    {
        proof {
            if i == k {
                assert(false);
            }
            if i < k {
                lemma_utf8_len_prefix(s@, i as int, k);
            }
            assert(s@.take(i + 1).drop_last() =~= s@.take(i as int));
            if i + 1 < k {
                lemma_utf8_len_prefix(s@, i + 1, k);
            }
        }
        bytes = bytes + utf8_width_of(s[i]);
        i += 1;
    }
    proof {
        if i < k {
            lemma_utf8_len_prefix(s@, i as int, k);
        }
    }
    i
}

} // verus!
