use vstd::prelude::*;
use vstd::string::{StrSliceExecFns, StringSliceAdditionalSpecFns};
use vstd::utf8::*;

verus! {

/// Relies on `String::from_utf8`: it succeeds exactly on valid UTF-8, and then holds the
/// decoded characters; the error is carried as its message.
#[verifier::external_body]
pub(crate) fn string_from_utf8(v: Vec<u8>) -> (r: Result<String, String>)
    ensures
        r is Ok <==> valid_utf8(v@),
        r matches Ok(s) ==> s@ == decode_utf8(v@),
{
    String::from_utf8(v).map_err(|e| e.to_string())
}

/// Whether two texts hold the same characters.
pub fn same_text(a: &str, b: &str) -> (r: bool)
    ensures
        r == (a@ == b@),
{
    let x = a.as_bytes();
    let y = b.as_bytes();
    proof {
        encode_utf8_decode_utf8(a@);
        encode_utf8_decode_utf8(b@);
    }
    if x.len() != y.len() {
        return false;
    }
    let mut i: usize = 0;
    while i < x.len()
        invariant
            x@ == encode_utf8(a@),
            y@ == encode_utf8(b@),
            x@.len() == y@.len(),
            i <= x@.len(),
            forall|j: int| 0 <= j < i ==> x@[j] == y@[j],
        decreases x@.len() - i,
    {
        if x[i] != y[i] {
            return false;
        }
        i = i + 1;
    }
    assert(x@ =~= y@);
    true
}

/// The pieces of `s` between occurrences of `sep`, as `split` gives them.
pub open spec fn split_seq<T>(s: Seq<T>, sep: T) -> Seq<Seq<T>>
    decreases s.len(),
{
    if s.len() == 0 {
        seq![Seq::empty()]
    } else {
        let init = split_seq(s.drop_last(), sep);
        if s.last() == sep {
            init.push(Seq::empty())
        } else {
            init.update(init.len() - 1, init.last().push(s.last()))
        }
    }
}

/// `split` always gives at least one piece.
pub proof fn lemma_split_len<T>(s: Seq<T>, sep: T)
    ensures
        split_seq(s, sep).len() >= 1,
    decreases s.len(),
{
    if s.len() > 0 {
        lemma_split_len(s.drop_last(), sep);
    }
}

pub open spec fn string_views(v: Seq<String>) -> Seq<Seq<char>> {
    v.map_values(|s: String| s@)
}

/// The pieces of `s` between occurrences of `sep`.
pub fn split_text(s: &str, sep: char) -> (r: Vec<String>)
    ensures
        string_views(r@) == split_seq(s@, sep),
{
    let n = s.unicode_len();
    let mut out: Vec<String> = Vec::new();
    let mut start: usize = 0;
    let mut i: usize = 0;
    proof {
        assert(s@.take(0) =~= Seq::<char>::empty());
        assert(s@.subrange(0, 0) =~= Seq::<char>::empty());
        assert(string_views(out@).push(Seq::<char>::empty()) =~= seq![Seq::<char>::empty()]);
    }
    while i < n
        invariant
            n == s@.len(),
            start <= i <= n,
            split_seq(s@.take(i as int), sep) == string_views(out@).push(s@.subrange(start as int, i as int)),
        decreases n - i,
    {
        let c = s.get_char(i);
        proof {
            assert(s@.take(i + 1).drop_last() =~= s@.take(i as int));
            assert(s@.take(i + 1).last() == c);
        }
        if c == sep {
            let piece = s.substring_char(start, i).to_owned();
            proof {
                assert(string_views(out@.push(piece)) =~= string_views(out@).push(piece@));
                assert(s@.subrange(i + 1, i + 1) =~= Seq::<char>::empty());
            }
            out.push(piece);
            start = i + 1;
        } else {
            proof {
                assert(s@.subrange(start as int, i + 1) =~= s@.subrange(start as int, i as int).push(c));
                let v = string_views(out@);
                assert(v.push(s@.subrange(start as int, i as int)).update(v.len() as int, s@.subrange(start as int, i + 1)) =~= v.push(s@.subrange(start as int, i + 1)));
            }
        }
        i = i + 1;
    }
    let piece = s.substring_char(start, n).to_owned();
    proof {
        assert(s@.take(n as int) =~= s@);
        assert(string_views(out@.push(piece)) =~= string_views(out@).push(piece@));
    }
    out.push(piece);
    out
}

/// The pieces of `s` between occurrences of the byte `sep`.
pub fn split_bytes(s: &[u8], sep: u8) -> (r: Vec<Vec<u8>>)
    ensures
        r@.map_values(|v: Vec<u8>| v@) == split_seq(s@, sep),
{
    let n = s.len();
    let mut out: Vec<Vec<u8>> = Vec::new();
    let mut cur: Vec<u8> = Vec::new();
    let mut i: usize = 0;
    proof {
        assert(s@.take(0) =~= Seq::<u8>::empty());
        assert(out@.map_values(|v: Vec<u8>| v@).push(cur@) =~= seq![Seq::<u8>::empty()]);
    }
    while i < n
        invariant
            n == s@.len(),
            i <= n,
            split_seq(s@.take(i as int), sep) == out@.map_values(|v: Vec<u8>| v@).push(cur@),
        decreases n - i,
    {
        let c = s[i];
        proof {
            assert(s@.take(i + 1).drop_last() =~= s@.take(i as int));
            assert(s@.take(i + 1).last() == c);
        }
        if c == sep {
            let ghost prev = out@;
            let piece = cur;
            out.push(piece);
            cur = Vec::new();
            proof {
                assert(out@.map_values(|v: Vec<u8>| v@) =~= prev.map_values(|v: Vec<u8>| v@).push(piece@));
                assert(cur@ =~= Seq::<u8>::empty());
            }
        } else {
            let ghost before = cur@;
            cur.push(c);
            proof {
                let v = out@.map_values(|v: Vec<u8>| v@);
                assert(v.push(before).update(v.len() as int, before.push(c)) =~= v.push(cur@));
            }
        }
        i = i + 1;
    }
    let ghost prev = out@;
    out.push(cur);
    proof {
        assert(s@.take(n as int) =~= s@);
        assert(out@.map_values(|v: Vec<u8>| v@) =~= prev.map_values(|v: Vec<u8>| v@).push(out@.last()@));
    }
    out
}

/// Why a text is not an unsigned integer, as `ParseIntError` tells it.
#[derive(Debug, Clone, Copy, PartialEq, Eq, Structural)]
pub enum IntError {
    Empty,
    InvalidDigit,
    PosOverflow,
}

impl IntError {
    /// The message that `ParseIntError` gives for this kind.
    pub fn message(&self) -> (r: String)
        ensures
            r@ == int_error_text(*self),
    {
        match self {
            IntError::Empty => "cannot parse integer from empty string".to_owned(),
            IntError::InvalidDigit => "invalid digit found in string".to_owned(),
            IntError::PosOverflow => "number too large to fit in target type".to_owned(),
        }
    }
}

pub open spec fn int_error_text(e: IntError) -> Seq<char> {
    match e {
        IntError::Empty => "cannot parse integer from empty string"@,
        IntError::InvalidDigit => "invalid digit found in string"@,
        IntError::PosOverflow => "number too large to fit in target type"@,
    }
}

pub open spec fn is_digit(c: char) -> bool {
    '0' <= c && c <= '9'
}

/// The decimal digits of `s` from `i` on, added to `acc`; fails at the first character that is
/// not a digit or the first digit that takes the value past 65535.
pub open spec fn scan_u16(s: Seq<char>, i: int, acc: int) -> Result<u16, IntError>
    decreases s.len() - i,
{
    if i >= s.len() {
        Ok(acc as u16)
    } else if !is_digit(s[i]) {
        Err(IntError::InvalidDigit)
    } else {
        let v = acc * 10 + (s[i] as int - '0' as int);
        if v > 65535 {
            Err(IntError::PosOverflow)
        } else {
            scan_u16(s, i + 1, v)
        }
    }
}

/// What `str::parse::<u16>` makes of `s`: an optional `+`, then decimal digits.
pub open spec fn spec_parse_u16(s: Seq<char>) -> Result<u16, IntError> {
    if s.len() == 0 {
        Err(IntError::Empty)
    } else if s[0] == '+' {
        if s.len() == 1 {
            Err(IntError::InvalidDigit)
        } else {
            scan_u16(s, 1, 0)
        }
    } else {
        scan_u16(s, 0, 0)
    }
}

/// Reads `s` as an unsigned decimal of at most 65535.
pub fn parse_u16(s: &str) -> (r: Result<u16, IntError>)
    ensures
        r == spec_parse_u16(s@),
{
    let n = s.unicode_len();
    if n == 0 {
        return Err(IntError::Empty);
    }
    let mut i: usize = 0;
    if s.get_char(0) == '+' {
        if n == 1 {
            return Err(IntError::InvalidDigit);
        }
        i = 1;
    }
    let ghost first = i as int;
    let mut acc: u32 = 0;
    while i < n
        invariant
            n == s@.len(),
            first <= i <= n,
            acc <= 65535,
            spec_parse_u16(s@) == scan_u16(s@, i as int, acc as int),
        decreases n - i,
    {
        let c = s.get_char(i);
        if c < '0' || c > '9' {
            return Err(IntError::InvalidDigit);
        }
        let v = acc * 10 + (c as u32 - '0' as u32);
        if v > 65535 {
            return Err(IntError::PosOverflow);
        }
        acc = v;
        i = i + 1;
    }
    Ok(acc as u16)
}

/// The Unicode `White_Space` property.
pub open spec fn is_white_space(c: char) -> bool {
    ('\u{9}' <= c && c <= '\u{d}') || c == ' ' || c == '\u{85}' || c == '\u{a0}' || c == '\u{1680}'
        || ('\u{2000}' <= c && c <= '\u{200a}') || c == '\u{2028}' || c == '\u{2029}' || c
        == '\u{202f}' || c == '\u{205f}' || c == '\u{3000}'
}

pub fn white_space(c: char) -> (r: bool)
    ensures
        r == is_white_space(c),
{
    ('\u{9}' <= c && c <= '\u{d}') || c == ' ' || c == '\u{85}' || c == '\u{a0}' || c == '\u{1680}'
        || ('\u{2000}' <= c && c <= '\u{200a}') || c == '\u{2028}' || c == '\u{2029}' || c
        == '\u{202f}' || c == '\u{205f}' || c == '\u{3000}'
}

pub open spec fn trim_start_seq(s: Seq<char>) -> Seq<char>
    decreases s.len(),
{
    if s.len() > 0 && is_white_space(s[0]) {
        trim_start_seq(s.drop_first())
    } else {
        s
    }
}

pub open spec fn trim_end_seq(s: Seq<char>) -> Seq<char>
    decreases s.len(),
{
    if s.len() > 0 && is_white_space(s.last()) {
        trim_end_seq(s.drop_last())
    } else {
        s
    }
}

/// `s` without its leading and trailing white space, as `str::trim` gives it.
pub open spec fn trim_seq(s: Seq<char>) -> Seq<char> {
    trim_end_seq(trim_start_seq(s))
}

/// `s` without its leading and trailing white space.
pub fn trim_text(s: &str) -> (r: String)
    ensures
        r@ == trim_seq(s@),
{
    let n = s.unicode_len();
    let mut i: usize = 0;
    assert(s@.skip(0) =~= s@);
    while i < n && white_space(s.get_char(i))
        invariant
            n == s@.len(),
            i <= n,
            trim_start_seq(s@) == trim_start_seq(s@.skip(i as int)),
        decreases n - i,
    {
        assert(s@.skip(i as int).drop_first() =~= s@.skip(i + 1));
        i = i + 1;
    }
    let ghost t = s@.skip(i as int);
    assert(trim_start_seq(t) == t);
    let mut j: usize = n;
    assert(s@.subrange(i as int, n as int) =~= t);
    while j > i && white_space(s.get_char(j - 1))
        invariant
            n == s@.len(),
            i <= j <= n,
            trim_end_seq(t) == trim_end_seq(s@.subrange(i as int, j as int)),
        decreases j,
    {
        assert(s@.subrange(i as int, j as int).drop_last() =~= s@.subrange(i as int, j - 1));
        j = j - 1;
    }
    s.substring_char(i, j).to_owned()
}

/// The index of the first `c` in `s`.
pub open spec fn first_index(s: Seq<char>, c: char) -> Option<int>
    decreases s.len(),
{
    if s.len() == 0 {
        None
    } else if s[0] == c {
        Some(0)
    } else {
        match first_index(s.drop_first(), c) {
            Some(j) => Some(j + 1),
            None => None,
        }
    }
}

proof fn lemma_first_index(s: Seq<char>, c: char, i: int)
    requires
        0 <= i <= s.len(),
        forall|k: int| 0 <= k < i ==> s[k] != c,
    ensures
        i < s.len() && s[i] == c ==> first_index(s, c) == Some(i),
        i == s.len() ==> first_index(s, c) is None,
    decreases i,
{
    if i > 0 {
        lemma_first_index(s.drop_first(), c, i - 1);
    }
}

/// The index of the first `c` in `s`.
pub fn find_char(s: &str, c: char) -> (r: Option<usize>)
    ensures
        r matches Some(j) ==> first_index(s@, c) == Some(j as int) && j < s@.len(),
        r is None ==> first_index(s@, c) is None,
{
    let n = s.unicode_len();
    let mut i: usize = 0;
    while i < n
        invariant
            n == s@.len(),
            i <= n,
            forall|k: int| 0 <= k < i ==> s@[k] != c,
        decreases n - i,
    {
        if s.get_char(i) == c {
            proof {
                lemma_first_index(s@, c, i as int);
            }
            return Some(i);
        }
        i = i + 1;
    }
    proof {
        lemma_first_index(s@, c, i as int);
    }
    None
}

/// The decimal digits of `s` from `i` on, added to `acc`; fails at the first character that is
/// not a digit or the first digit that takes the value past `max`.
pub open spec fn scan_dec(s: Seq<char>, i: int, acc: int, max: int) -> Result<int, IntError>
    decreases s.len() - i,
{
    if i >= s.len() {
        Ok(acc)
    } else if !is_digit(s[i]) {
        Err(IntError::InvalidDigit)
    } else {
        let v = acc * 10 + (s[i] as int - '0' as int);
        if v > max {
            Err(IntError::PosOverflow)
        } else {
            scan_dec(s, i + 1, v, max)
        }
    }
}

/// What `str::parse::<usize>` makes of `s`: an optional `+`, then decimal digits.
pub open spec fn spec_parse_usize(s: Seq<char>) -> Result<int, IntError> {
    if s.len() == 0 {
        Err(IntError::Empty)
    } else if s[0] == '+' {
        if s.len() == 1 {
            Err(IntError::InvalidDigit)
        } else {
            scan_dec(s, 1, 0, usize::MAX as int)
        }
    } else {
        scan_dec(s, 0, 0, usize::MAX as int)
    }
}

/// Reads `s` as an unsigned decimal that fits a `usize`.
pub fn parse_usize(s: &str) -> (r: Result<usize, IntError>)
    ensures
        match spec_parse_usize(s@) {
            Ok(n) => r matches Ok(x) && x as int == n,
            Err(k) => r == Err::<usize, IntError>(k),
        },
{
    let n = s.unicode_len();
    if n == 0 {
        return Err(IntError::Empty);
    }
    let mut i: usize = 0;
    if s.get_char(0) == '+' {
        if n == 1 {
            return Err(IntError::InvalidDigit);
        }
        i = 1;
    }
    let ghost first = i as int;
    let mut acc: u128 = 0;
    while i < n
        invariant
            n == s@.len(),
            first <= i <= n,
            acc <= usize::MAX,
            spec_parse_usize(s@) == scan_dec(s@, i as int, acc as int, usize::MAX as int),
        decreases n - i,
    {
        let c = s.get_char(i);
        if c < '0' || c > '9' {
            return Err(IntError::InvalidDigit);
        }
        let v = acc * 10 + (c as u32 - '0' as u32) as u128;
        if v > usize::MAX as u128 {
            return Err(IntError::PosOverflow);
        }
        acc = v;
        i = i + 1;
    }
    Ok(acc as usize)
}

/// The index of the first occurrence of `p` in `s`.
pub open spec fn first_match(s: Seq<char>, p: Seq<char>) -> Option<int>
    decreases s.len(),
{
    if s.len() < p.len() {
        None
    } else if s.take(p.len() as int) == p {
        Some(0)
    } else if s.len() == 0 {
        None
    } else {
        match first_match(s.drop_first(), p) {
            Some(j) => Some(j + 1),
            None => None,
        }
    }
}

proof fn lemma_first_match(s: Seq<char>, p: Seq<char>, i: int)
    requires
        0 <= i,
        forall|k: int| 0 <= k < i && k + p.len() <= s.len() ==> #[trigger] s.subrange(k, k + p.len()) != p,
    ensures
        i + p.len() <= s.len() && s.subrange(i, i + p.len()) == p ==> first_match(s, p) == Some(i),
        i + p.len() > s.len() ==> first_match(s, p) is None,
    decreases i,
{
    assert(s.take(p.len() as int) =~= s.subrange(0, p.len() as int)) by {
        if p.len() > s.len() {
        }
    }
    if i > 0 && s.len() >= p.len() {
        assert(s.subrange(0int, 0int + p.len()) != p);
        if s.len() == 0 {
            assert(s.subrange(0, 0) =~= p);
        }
        let t = s.drop_first();
        assert forall|k: int| 0 <= k < i - 1 && k + p.len() <= t.len() implies #[trigger] t.subrange(
            k,
            k + p.len(),
        ) != p by {
            assert(t.subrange(k, k + p.len()) =~= s.subrange(k + 1, k + 1 + p.len()));
        }
        if i + p.len() <= s.len() {
            assert(t.subrange(i - 1, i - 1 + p.len()) =~= s.subrange(i, i + p.len()));
        }
        lemma_first_match(t, p, i - 1);
    }
}

/// The index of the first occurrence of `p` in `s`.
pub fn find_text(s: &str, p: &str) -> (r: Option<usize>)
    ensures
        r matches Some(j) ==> first_match(s@, p@) == Some(j as int) && j + p@.len() <= s@.len(),
        r is None ==> first_match(s@, p@) is None,
{
    let n = s.unicode_len();
    let k = p.unicode_len();
    if k == 0 {
        assert(s@.take(0) =~= p@);
        return Some(0);
    }
    let mut i: usize = 0;
    while i <= n && k <= n - i
        invariant
            n == s@.len(),
            k == p@.len(),
            k >= 1,
            i <= n,
            forall|j: int| 0 <= j < i && j + k <= n ==> #[trigger] s@.subrange(j, j + k) != p@,
        decreases n - i,
    {
        if same_text(s.substring_char(i, i + k), p) {
            proof {
                lemma_first_match(s@, p@, i as int);
            }
            return Some(i);
        }
        i = i + 1;
    }
    proof {
        lemma_first_match(s@, p@, i as int);
    }
    None
}

} // verus!
