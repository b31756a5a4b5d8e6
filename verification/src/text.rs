//! Character-level text operations shared by the router, the tape and the loop.
use vstd::prelude::*;

verus! {

/// The Unicode `White_Space` property, which `char::is_whitespace` tests.
pub open spec fn is_ws(c: char) -> bool {
    let u = c as u32;
    ||| 0x09 <= u <= 0x0D
    ||| u == 0x20
    ||| u == 0x85
    ||| u == 0xA0
    ||| u == 0x1680
    ||| 0x2000 <= u <= 0x200A
    ||| u == 0x2028
    ||| u == 0x2029
    ||| u == 0x202F
    ||| u == 0x205F
    ||| u == 0x3000
}

/// `s` without its leading whitespace.
pub open spec fn trim_start(s: Seq<char>) -> Seq<char>
    decreases s.len(),
{
    if s.len() > 0 && is_ws(s[0]) {
        trim_start(s.drop_first())
    } else {
        s
    }
}

/// `s` without its trailing whitespace.
pub open spec fn trim_end(s: Seq<char>) -> Seq<char>
    decreases s.len(),
{
    if s.len() > 0 && is_ws(s.last()) {
        trim_end(s.drop_last())
    } else {
        s
    }
}

/// `s` without leading and trailing whitespace, as `str::trim` gives it.
pub open spec fn trim(s: Seq<char>) -> Seq<char> {
    trim_end(trim_start(s))
}

pub fn is_ws_char(c: char) -> (b: bool)
    ensures
        b == is_ws(c),
{
    let u = c as u32;
    (0x09 <= u && u <= 0x0D) || u == 0x20 || u == 0x85 || u == 0xA0 || u == 0x1680 || (0x2000
        <= u && u <= 0x200A) || u == 0x2028 || u == 0x2029 || u == 0x202F || u == 0x205F || u
        == 0x3000
}

/// The characters of `s`, in order.
pub fn chars_of(s: &str) -> (v: Vec<char>)
    ensures
        v@ == s@,
{
    let mut v: Vec<char> = Vec::new();
    for c in it: s.chars()
        invariant
            it.seq() == s@,
            v@ == it.seq().take(it.index() as int),
    {
        v.push(c);
        assert(v@ == it.seq().take(it.index() + 1));
    }
    v
}

/// `String::push`: appends one character to the string.
#[verifier::external_body]
fn push_char(s: &mut String, c: char)
    ensures
        final(s)@ == old(s)@.push(c),
{
    s.push(c);
}

/// A `String` holding exactly the characters of `v`.
pub fn string_of(v: &[char]) -> (s: String)
    ensures
        s@ == v@,
{
    let mut s = String::new();
    let n = v.len();
    for i in 0..n
        invariant
            n == v@.len(),
            s@ == v@.take(i as int),
    {
        push_char(&mut s, v[i]);
        assert(s@ == v@.take(i + 1));
    }
    assert(v@.take(n as int) == v@);
    s
}

/// The characters `v[a..b]`.
pub fn slice_chars(v: &[char], a: usize, b: usize) -> (r: Vec<char>)
    requires
        a <= b <= v@.len(),
    ensures
        r@ == v@.subrange(a as int, b as int),
{
    let mut r: Vec<char> = Vec::new();
    let mut i = a;
    while i < b
        invariant
            a <= i <= b <= v@.len(),
            r@ == v@.subrange(a as int, i as int),
        decreases b - i,
    {
        r.push(v[i]);
        i += 1;
        assert(r@ == v@.subrange(a as int, i as int));
    }
    r
}

proof fn lemma_trim_start(s: Seq<char>, i: int)
    requires
        0 <= i <= s.len(),
        forall|k: int| 0 <= k < i ==> is_ws(#[trigger] s[k]),
        i == s.len() || !is_ws(s[i]),
    ensures
        trim_start(s) == s.subrange(i, s.len() as int),
    decreases i,
{
    if i == 0 {
        assert(s.subrange(0, s.len() as int) == s);
    } else {
        let t = s.drop_first();
        assert forall|k: int| 0 <= k < i - 1 implies is_ws(#[trigger] t[k]) by {
            assert(t[k] == s[k + 1]);
        }
        assert(i - 1 == t.len() || t[i - 1] == s[i]);
        lemma_trim_start(t, i - 1);
        assert(t.subrange(i - 1, t.len() as int) == s.subrange(i, s.len() as int));
    }
}

proof fn lemma_trim_end(s: Seq<char>, j: int)
    requires
        0 <= j <= s.len(),
        forall|k: int| j <= k < s.len() ==> is_ws(#[trigger] s[k]),
        j == 0 || !is_ws(s[j - 1]),
    ensures
        trim_end(s) == s.subrange(0, j),
    decreases s.len() - j,
{
    if j == s.len() {
        assert(s.subrange(0, j) == s);
    } else {
        let t = s.drop_last();
        assert(is_ws(s[s.len() - 1]));
        assert forall|k: int| j <= k < t.len() implies is_ws(#[trigger] t[k]) by {
            assert(t[k] == s[k]);
        }
        if j > 0 {
            assert(t[j - 1] == s[j - 1]);
        }
        lemma_trim_end(t, j);
        assert(t.subrange(0, j) == s.subrange(0, j));
    }
}

/// `v` without leading and trailing whitespace.
pub fn trim_chars(v: &[char]) -> (r: Vec<char>)
    ensures
        r@ == trim(v@),
{
    let n = v.len();
    let mut i: usize = 0;
    while i < n && is_ws_char(v[i])
        invariant
            i <= n == v@.len(),
            forall|k: int| 0 <= k < i ==> is_ws(#[trigger] v@[k]),
        decreases n - i,
    {
        i += 1;
    }
    let mut j: usize = n;
    while j > i && is_ws_char(v[j - 1])
        invariant
            i <= j <= n == v@.len(),
            forall|k: int| j <= k < n ==> is_ws(#[trigger] v@[k]),
        decreases j,
    {
        j -= 1;
    }
    proof {
        lemma_trim_start(v@, i as int);
        let t = v@.subrange(i as int, n as int);
        assert forall|k: int| j - i <= k < t.len() implies is_ws(#[trigger] t[k]) by {
            assert(t[k] == v@[k + i]);
        }
        if j > i {
            assert(t[j - i - 1] == v@[j - 1]);
        }
        lemma_trim_end(t, j - i);
        assert(t.subrange(0, j - i) == v@.subrange(i as int, j as int));
    }
    slice_chars(v, i, j)
}

/// `s` without leading and trailing whitespace, as `str::trim` gives it.
pub fn trim_str(s: &str) -> (r: String)
    ensures
        r@ == trim(s@),
{
    let v = chars_of(s);
    let t = trim_chars(v.as_slice());
    string_of(t.as_slice())
}

/// Whether `s` begins with `p`.
pub fn starts_with_chars(s: &[char], p: &[char]) -> (b: bool)
    ensures
        b == p@.is_prefix_of(s@),
{
    if p.len() > s.len() {
        return false;
    }
    let mut i: usize = 0;
    while i < p.len()
        invariant
            p@.len() <= s@.len(),
            i <= p@.len(),
            forall|k: int| 0 <= k < i ==> p@[k] == s@[k],
        decreases p@.len() - i,
    {
        if p[i] != s[i] {
            return false;
        }
        i += 1;
    }
    true
}

/// Whether `p` occurs in `s` at position `i`.
pub open spec fn occurs_at(s: Seq<char>, p: Seq<char>, i: int) -> bool {
    0 <= i && i + p.len() <= s.len() && s.subrange(i, i + p.len()) == p
}

/// Whether `p` is a substring of `s`, as `str::contains` tests it.
pub open spec fn has_substring(s: Seq<char>, p: Seq<char>) -> bool {
    exists|i: int| occurs_at(s, p, i)
}

/// Whether `p` occurs in `s` at `i`, tested character by character.
fn occurs_at_exec(s: &[char], p: &[char], i: usize) -> (b: bool)
    requires
        i + p@.len() <= s@.len(),
    ensures
        b == occurs_at(s@, p@, i as int),
{
    let mut k: usize = 0;
    while k < p.len()
        invariant
            i + p@.len() <= s@.len(),
            s@.len() == s.len(),
            k <= p@.len(),
            forall|m: int| 0 <= m < k ==> p@[m] == s@[i + m],
        decreases p@.len() - k,
    {
        if p[k] != s[i + k] {
            assert(s@.subrange(i as int, i + p@.len())[k as int] != p@[k as int]);
            return false;
        }
        k += 1;
    }
    assert(s@.subrange(i as int, i + p@.len()) == p@);
    true
}

/// Whether `p` is a substring of `s`.
pub fn contains_chars(s: &[char], p: &[char]) -> (b: bool)
    ensures
        b == has_substring(s@, p@),
{
    if p.len() > s.len() {
        assert forall|i: int| !occurs_at(s@, p@, i) by {}
        return false;
    }
    let last = s.len() - p.len();
    let mut i: usize = 0;
    while i <= last
        invariant
            last + p@.len() == s@.len(),
            forall|k: int| 0 <= k < i ==> !occurs_at(s@, p@, k),
        decreases last + 1 - i,
    {
        if occurs_at_exec(s, p, i) {
            return true;
        }
        if i == last {
            assert forall|k: int| !occurs_at(s@, p@, k) by {
                if 0 <= k <= i {
                } else {
                }
            }
            return false;
        }
        i += 1;
    }
    false
}

/// Whether `p` is a substring of `s`, for string slices.
pub fn str_contains(s: &str, p: &str) -> (b: bool)
    ensures
        b == has_substring(s@, p@),
{
    let sv = chars_of(s);
    let pv = chars_of(p);
    contains_chars(sv.as_slice(), pv.as_slice())
}


/// The position of the first `c` in `s`, if any.
pub open spec fn first_index(s: Seq<char>, c: char) -> Option<int>
    decreases s.len(),
{
    if s.len() == 0 {
        None
    } else {
        match first_index(s.drop_last(), c) {
            Some(i) => Some(i),
            None => if s.last() == c {
                Some(s.len() - 1)
            } else {
                None
            },
        }
    }
}

/// `s` split around its first `c`, as `str::split_once` gives it.
pub open spec fn split_once(s: Seq<char>, c: char) -> Option<(Seq<char>, Seq<char>)> {
    match first_index(s, c) {
        Some(i) => Some((s.take(i), s.skip(i + 1))),
        None => None,
    }
}

/// The pieces of `s` between occurrences of `c`, as `str::split` gives them.
pub open spec fn split_on(s: Seq<char>, c: char) -> Seq<Seq<char>>
    decreases s.len(),
{
    if s.len() == 0 {
        seq![Seq::<char>::empty()]
    } else {
        let rest = split_on(s.drop_last(), c);
        if s.last() == c {
            rest.push(Seq::<char>::empty())
        } else {
            rest.update(rest.len() - 1, rest.last().push(s.last()))
        }
    }
}

/// `first_index` gives the first position of `c`, or none where `c` does not occur.
pub(crate) proof fn lemma_first_index(s: Seq<char>, c: char)
    ensures
        match first_index(s, c) {
            Some(i) => 0 <= i < s.len() && s[i] == c && forall|k: int| 0 <= k < i ==> s[k] != c,
            None => forall|k: int| 0 <= k < s.len() ==> s[k] != c,
        },
    decreases s.len(),
{
    if s.len() > 0 {
        let t = s.drop_last();
        lemma_first_index(t, c);
        assert forall|k: int| 0 <= k < t.len() implies t[k] == s[k] by {}
    }
}

/// Splitting gives at least one piece.
pub(crate) proof fn lemma_split_on_len(s: Seq<char>, c: char)
    ensures
        split_on(s, c).len() >= 1,
    decreases s.len(),
{
    if s.len() > 0 {
        lemma_split_on_len(s.drop_last(), c);
    }
}

/// The position of the first `c` in `v`, if any.
pub fn find_char(v: &[char], c: char) -> (r: Option<usize>)
    ensures
        r matches Some(i) ==> first_index(v@, c) == Some(i as int) && i < v@.len() && v@[i as int]
            == c,
        r is None ==> first_index(v@, c) is None,
{
    let mut i: usize = 0;
    while i < v.len()
        invariant
            i <= v@.len(),
            forall|k: int| 0 <= k < i ==> v@[k] != c,
        decreases v@.len() - i,
    {
        if v[i] == c {
            proof {
                lemma_first_index(v@, c);
                match first_index(v@, c) {
                    Some(j) => {
                        if j < i {
                            assert(v@[j] != c);
                        }
                        if j > i {
                            assert(v@[i as int] != c);
                        }
                    },
                    None => {
                        assert(v@[i as int] == c);
                    },
                }
            }
            return Some(i);
        }
        i += 1;
    }
    proof {
        lemma_first_index(v@, c);
        if let Some(j) = first_index(v@, c) {
            assert(v@[j] != c);
        }
    }
    None
}

/// The pieces of `v` between occurrences of `c`.
pub fn split_chars(v: &[char], c: char) -> (r: Vec<Vec<char>>)
    ensures
        r@.map_values(|x: Vec<char>| x@) == split_on(v@, c),
{
    let mut pieces: Vec<Vec<char>> = Vec::new();
    let mut cur: Vec<char> = Vec::new();
    let n = v.len();
    assert(v@.take(0) =~= Seq::<char>::empty());
    assert(pieces@.map_values(|x: Vec<char>| x@).push(cur@) =~= split_on(v@.take(0), c));
    for i in 0..n
        invariant
            n == v@.len(),
            pieces@.map_values(|x: Vec<char>| x@).push(cur@) == split_on(v@.take(i as int), c),
    {
        let ghost before = pieces@.map_values(|x: Vec<char>| x@);
        assert(v@.take(i + 1).drop_last() =~= v@.take(i as int));
        proof {
            lemma_split_on_len(v@.take(i as int), c);
        }
        if v[i] == c {
            pieces.push(cur);
            cur = Vec::new();
            assert(pieces@.map_values(|x: Vec<char>| x@) =~= before.push(
                split_on(v@.take(i as int), c).last(),
            ));
            assert(pieces@.map_values(|x: Vec<char>| x@).push(cur@) =~= split_on(
                v@.take(i + 1),
                c,
            ));
        } else {
            cur.push(v[i]);
            assert(pieces@.map_values(|x: Vec<char>| x@).push(cur@) =~= split_on(
                v@.take(i + 1),
                c,
            ));
        }
    }
    assert(v@.take(n as int) =~= v@);
    pieces.push(cur);
    assert(pieces@.map_values(|x: Vec<char>| x@) =~= split_on(v@, c));
    pieces
}

/// The character of the decimal digit `d`.
pub open spec fn digit_char(d: int) -> char {
    (d + 48) as char
}

/// The decimal representation of `n`, as `usize::to_string` gives it.
pub open spec fn decimal(n: nat) -> Seq<char>
    decreases n,
{
    if n < 10 {
        seq![digit_char(n as int)]
    } else {
        decimal(n / 10).push(digit_char((n % 10) as int))
    }
}

fn digit_char_exec(d: usize) -> (c: char)
    requires
        d < 10,
    ensures
        c == digit_char(d as int),
{
    let b: u8 = 48u8 + (d as u8);
    b as char
}

fn push_decimal(s: &mut String, n: usize)
    ensures
        final(s)@ == old(s)@ + decimal(n as nat),
    decreases n,
{
    if n < 10 {
        push_char(s, digit_char_exec(n));
    } else {
        push_decimal(s, n / 10);
        push_char(s, digit_char_exec(n % 10));
    }
}

/// The decimal representation of `n`.
pub fn usize_to_string(n: usize) -> (s: String)
    ensures
        s@ == decimal(n as nat),
{
    let mut s = String::new();
    push_decimal(&mut s, n);
    s
}

/// Whether `c` is an ASCII decimal digit.
pub open spec fn is_digit(c: char) -> bool {
    48 <= (c as u32) <= 57
}

/// `s` without one leading `+`.
pub open spec fn unsigned_body(s: Seq<char>) -> Seq<char> {
    if s.len() > 0 && s[0] == '+' {
        s.drop_first()
    } else {
        s
    }
}

/// Why a string is no `usize`, as `core::num::IntErrorKind` tells it.
#[derive(Clone, Copy, Debug, PartialEq, Eq, Structural)]
pub enum IntErrorKind {
    Empty,
    InvalidDigit,
    PosOverflow,
}

/// Reads decimal digits left to right: the value, or the first problem met.
pub open spec fn scan_digits(s: Seq<char>) -> Result<nat, IntErrorKind>
    decreases s.len(),
{
    if s.len() == 0 {
        Ok(0)
    } else {
        match scan_digits(s.drop_last()) {
            Err(e) => Err(e),
            Ok(v) => if !is_digit(s.last()) {
                Err(IntErrorKind::InvalidDigit)
            } else if v * 10 + ((s.last() as u32) - 48) > usize::MAX {
                Err(IntErrorKind::PosOverflow)
            } else {
                Ok((v * 10 + ((s.last() as u32) - 48)) as nat)
            },
        }
    }
}

/// What `str::parse::<usize>` gives: an optional `+`, then one or more ASCII digits
/// whose value fits in a `usize`.
pub open spec fn parse_usize_result(s: Seq<char>) -> Result<usize, IntErrorKind> {
    if s.len() == 0 {
        Err(IntErrorKind::Empty)
    } else if unsigned_body(s).len() == 0 {
        Err(IntErrorKind::InvalidDigit)
    } else {
        match scan_digits(unsigned_body(s)) {
            Ok(v) => Ok(v as usize),
            Err(e) => Err(e),
        }
    }
}

/// The `usize` that `s` spells, if any.
pub open spec fn parse_usize(s: Seq<char>) -> Option<usize> {
    match parse_usize_result(s) {
        Ok(v) => Some(v),
        Err(_) => None,
    }
}

/// The `usize` that `v` spells, as `str::parse::<usize>` reads it.
pub fn parse_usize_chars(v: &[char]) -> (r: Result<usize, IntErrorKind>)
    ensures
        r == parse_usize_result(v@),
{
    if v.len() == 0 {
        return Err(IntErrorKind::Empty);
    }
    let start: usize = if v[0] == '+' {
        1
    } else {
        0
    };
    let ghost body = unsigned_body(v@);
    assert(body =~= v@.skip(start as int));
    if start == v.len() {
        return Err(IntErrorKind::InvalidDigit);
    }
    let mut value: usize = 0;
    let mut i = start;
    assert(body.take(0) =~= Seq::<char>::empty());
    while i < v.len()
        invariant
            start <= i <= v@.len(),
            v@.len() > 0,
            body == unsigned_body(v@),
            body == v@.skip(start as int),
            scan_digits(body.take(i - start)) == Ok::<nat, IntErrorKind>(value as nat),
        decreases v@.len() - i,
    {
        let ghost pre = body.take(i - start);
        assert(body.take(i - start + 1).drop_last() =~= pre);
        assert(body.take(i - start + 1).last() == v@[i as int]);
        let c = v[i];
        if !(48 <= (c as u32) && (c as u32) <= 57) {
            proof {
                lemma_scan_extend_err(body, i - start + 1);
            }
            return Err(IntErrorKind::InvalidDigit);
        }
        let d = (c as u32 - 48) as usize;
        if value > (usize::MAX - d) / 10 {
            proof {
                let m = (usize::MAX - d) as int;
                assert(value * 10 + d > usize::MAX) by (nonlinear_arith)
                    requires
                        value > m / 10,
                        m == usize::MAX - d,
                        d < 10,
                ;
                lemma_scan_extend_err(body, i - start + 1);
            }
            return Err(IntErrorKind::PosOverflow);
        }
        value = value * 10 + d;
        i += 1;
    }
    assert(body.take(body.len() as int) =~= body);
    Ok(value)
}

proof fn lemma_scan_extend_err(s: Seq<char>, j: int)
    requires
        0 <= j <= s.len(),
        scan_digits(s.take(j)) is Err,
    ensures
        scan_digits(s) == scan_digits(s.take(j)),
    decreases s.len() - j,
{
    if j == s.len() {
        assert(s.take(j) =~= s);
    } else {
        assert(s.take(j + 1).drop_last() =~= s.take(j));
        lemma_scan_extend_err(s, j + 1);
    }
}

/// The `usize` that `s` spells, if any.
pub fn parse_usize_str(s: &str) -> (r: Option<usize>)
    ensures
        r == parse_usize(s@),
{
    let v = chars_of(s);
    match parse_usize_chars(v.as_slice()) {
        Ok(n) => Some(n),
        Err(_) => None,
    }
}

/// The message `core::num::ParseIntError` displays for each kind.
pub open spec fn int_error_message(e: IntErrorKind) -> Seq<char> {
    match e {
        IntErrorKind::Empty => "cannot parse integer from empty string"@,
        IntErrorKind::InvalidDigit => "invalid digit found in string"@,
        IntErrorKind::PosOverflow => "number too large to fit in target type"@,
    }
}

pub fn int_error_text(e: IntErrorKind) -> (r: String)
    ensures
        r@ == int_error_message(e),
{
    match e {
        IntErrorKind::Empty => "cannot parse integer from empty string".to_owned(),
        IntErrorKind::InvalidDigit => "invalid digit found in string".to_owned(),
        IntErrorKind::PosOverflow => "number too large to fit in target type".to_owned(),
    }
}

/// `parts` joined with `sep` between neighbours, as `[String]::join` gives it.
pub open spec fn join(parts: Seq<Seq<char>>, sep: Seq<char>) -> Seq<char>
    decreases parts.len(),
{
    if parts.len() == 0 {
        Seq::<char>::empty()
    } else if parts.len() == 1 {
        parts[0]
    } else {
        join(parts.drop_last(), sep) + sep + parts.last()
    }
}

/// The views of a sequence of strings.
pub open spec fn string_views(v: Seq<String>) -> Seq<Seq<char>> {
    v.map_values(|s: String| s@)
}

/// `parts` joined with `sep`.
pub fn join_strings(parts: &[String], sep: &str) -> (r: String)
    ensures
        r@ == join(string_views(parts@), sep@),
{
    let mut r = String::new();
    let n = parts.len();
    for i in 0..n
        invariant
            n == parts@.len(),
            r@ == join(string_views(parts@).take(i as int), sep@),
    {
        let ghost prev = string_views(parts@).take(i as int);
        assert(string_views(parts@).take(i + 1).drop_last() =~= prev);
        if i > 0 {
            r.append(sep);
        }
        r.append(parts[i].as_str());
        assert(string_views(parts@).take(i + 1).last() == parts@[i as int]@);
        if i == 0 {
            assert(prev =~= Seq::<Seq<char>>::empty());
        }
    }
    assert(string_views(parts@).take(n as int) =~= string_views(parts@));
    r
}

/// Whether two character sequences are equal.
pub fn chars_eq(a: &[char], b: &[char]) -> (r: bool)
    ensures
        r == (a@ == b@),
{
    if a.len() != b.len() {
        return false;
    }
    let mut i: usize = 0;
    while i < a.len()
        invariant
            a@.len() == b@.len(),
            i <= a@.len(),
            forall|k: int| 0 <= k < i ==> a@[k] == b@[k],
        decreases a@.len() - i,
    {
        if a[i] != b[i] {
            return false;
        }
        i += 1;
    }
    assert(a@ =~= b@);
    true
}

/// Whether two strings are equal.
pub fn str_eq(a: &str, b: &str) -> (r: bool)
    ensures
        r == (a@ == b@),
{
    let av = chars_of(a);
    let bv = chars_of(b);
    chars_eq(av.as_slice(), bv.as_slice())
}

/// Whether `s` begins with `p`.
pub fn str_starts_with(s: &str, p: &str) -> (r: bool)
    ensures
        r == p@.is_prefix_of(s@),
{
    let sv = chars_of(s);
    let pv = chars_of(p);
    starts_with_chars(sv.as_slice(), pv.as_slice())
}

/// `a` followed by `b`.
pub fn concat_str(a: &str, b: &str) -> (r: String)
    ensures
        r@ == a@ + b@,
{
    let mut r = a.to_owned();
    r.append(b);
    r
}

/// What `str::to_lowercase` returns for a string: the Unicode lowercase mapping,
/// character by character, with its context rules.
pub uninterp spec fn lowercase(s: Seq<char>) -> Seq<char>;

/// `str::to_lowercase`. Its contract names the result and says nothing more of it.
#[verifier::external_body]
pub(crate) fn to_lowercase(s: &str) -> (r: String)
    ensures
        r@ == lowercase(s@),
{
    s.to_lowercase()
}

/// What `{:?}` prints for a list of string pairs.
pub uninterp spec fn debug_pairs(pairs: Seq<(Seq<char>, Seq<char>)>) -> Seq<char>;

/// `format!("{:?}", pairs)`. Its contract names the result and says nothing more of it.
#[verifier::external_body]
pub(crate) fn format_pairs(pairs: &[(String, String)]) -> (r: String)
    ensures
        r@ == debug_pairs(pairs.deep_view()),
{
    format!("{:?}", pairs)
}

/// The first non-`None` result of `f` over `s`, from the left.
pub open spec fn first_some<A, B>(s: Seq<A>, f: spec_fn(A) -> Option<B>) -> Option<B>
    decreases s.len(),
{
    if s.len() == 0 {
        None
    } else {
        match first_some(s.drop_last(), f) {
            Some(b) => Some(b),
            None => f(s.last()),
        }
    }
}

/// `first_some` over one more element.
pub(crate) proof fn lemma_first_some_step<A, B>(s: Seq<A>, f: spec_fn(A) -> Option<B>, i: int)
    requires
        0 <= i < s.len(),
    ensures
        first_some(s.take(i + 1), f) == (match first_some(s.take(i), f) {
            Some(b) => Some(b),
            None => f(s[i]),
        }),
{
    assert(s.take(i + 1).drop_last() =~= s.take(i));
}

/// Once `first_some` finds a result in a prefix, it is the result for the whole.
pub(crate) proof fn lemma_first_some_extend<A, B>(s: Seq<A>, f: spec_fn(A) -> Option<B>, j: int)
    requires
        0 <= j <= s.len(),
        first_some(s.take(j), f) is Some,
    ensures
        first_some(s, f) == first_some(s.take(j), f),
    decreases s.len() - j,
{
    if j == s.len() {
        assert(s.take(j) =~= s);
    } else {
        lemma_first_some_step(s, f, j);
        lemma_first_some_extend(s, f, j + 1);
    }
}

/// What `first_some` finds, `f` gives for some element.
pub(crate) proof fn lemma_first_some_found<A, B>(s: Seq<A>, f: spec_fn(A) -> Option<B>)
    ensures
        first_some(s, f) matches Some(b) ==> exists|i: int| 0 <= i < s.len() && f(#[trigger] s[i]) == Some(b),
    decreases s.len(),
{
    if s.len() > 0 {
        lemma_first_some_found(s.drop_last(), f);
        if first_some(s.drop_last(), f) is Some {
            let b = first_some(s.drop_last(), f)->0;
            let i = choose|i: int| 0 <= i < s.drop_last().len() && f(#[trigger] s.drop_last()[i]) == Some(b);
            assert(s[i] == s.drop_last()[i]);
        } else {
            assert(s[s.len() - 1] == s.last());
        }
    }
}

/// `first_some` finds nothing where `f` gives nothing for every element.
pub(crate) proof fn lemma_first_some_none<A, B>(s: Seq<A>, f: spec_fn(A) -> Option<B>)
    ensures
        first_some(s, f) is None <==> forall|i: int| 0 <= i < s.len() ==> f(#[trigger] s[i]) is None,
    decreases s.len(),
{
    if s.len() > 0 {
        lemma_first_some_none(s.drop_last(), f);
        assert forall|i: int| 0 <= i < s.len() - 1 implies s.drop_last()[i] == s[i] by {}
        if first_some(s, f) is None {
            assert forall|i: int| 0 <= i < s.len() implies f(#[trigger] s[i]) is None by {
                if i < s.len() - 1 {
                    assert(f(s.drop_last()[i]) is None);
                }
            }
        }
    }
}

/// `s` with every non-overlapping occurrence of `pat`, from the left, replaced by `rep`,
/// as `str::replace` gives it (an empty `pat` matches before every character and at the end).
pub open spec fn replace_all(s: Seq<char>, pat: Seq<char>, rep: Seq<char>) -> Seq<char>
    decreases s.len(),
{
    if pat.len() == 0 {
        if s.len() == 0 {
            rep
        } else {
            rep + seq![s[0]] + replace_all(s.drop_first(), pat, rep)
        }
    } else if s.len() < pat.len() {
        s
    } else if s.take(pat.len() as int) == pat {
        rep + replace_all(s.skip(pat.len() as int), pat, rep)
    } else {
        seq![s[0]] + replace_all(s.drop_first(), pat, rep)
    }
}

fn push_chars(out: &mut Vec<char>, v: &[char])
    ensures
        final(out)@ == old(out)@ + v@,
{
    for i in 0..v.len()
        invariant
            out@ == old(out)@ + v@.take(i as int),
    {
        out.push(v[i]);
        assert(out@ =~= old(out)@ + v@.take(i + 1));
    }
    assert(v@.take(v@.len() as int) =~= v@);
}

/// `s` with every occurrence of `pat` replaced by `rep`.
pub fn replace_chars(s: &[char], pat: &[char], rep: &[char]) -> (r: Vec<char>)
    ensures
        r@ == replace_all(s@, pat@, rep@),
{
    let n = s.len();
    let plen = pat.len();
    let mut out: Vec<char> = Vec::new();
    let mut i: usize = 0;
    assert(s@.skip(0) =~= s@);
    assert(out@ + replace_all(s@.skip(0), pat@, rep@) =~= replace_all(s@, pat@, rep@));
    while i < n
        invariant
            n == s@.len(),
            plen == pat@.len(),
            i <= n,
            out@ + replace_all(s@.skip(i as int), pat@, rep@) == replace_all(s@, pat@, rep@),
        decreases n - i,
    {
        let ghost t = s@.skip(i as int);
        if plen == 0 {
            assert(t.drop_first() =~= s@.skip(i + 1));
            assert(t[0] == s@[i as int]);
            push_chars(&mut out, rep);
            out.push(s[i]);
            assert(out@ + replace_all(s@.skip(i + 1), pat@, rep@) =~= replace_all(
                s@,
                pat@,
                rep@,
            ));
            i += 1;
        } else if n - i < plen {
            let tail = slice_chars(s, i, n);
            assert(tail@ =~= t);
            push_chars(&mut out, tail.as_slice());
            assert(s@.skip(n as int) =~= Seq::<char>::empty());
            assert(out@ + replace_all(s@.skip(n as int), pat@, rep@) =~= replace_all(
                s@,
                pat@,
                rep@,
            ));
            i = n;
        } else if occurs_at_chars(s, pat, i) {
            assert(t.take(plen as int) =~= s@.subrange(i as int, i + plen));
            assert(t.skip(plen as int) =~= s@.skip(i + plen));
            push_chars(&mut out, rep);
            assert(out@ + replace_all(s@.skip(i + plen), pat@, rep@) =~= replace_all(
                s@,
                pat@,
                rep@,
            ));
            i += plen;
        } else {
            assert(t.take(plen as int) =~= s@.subrange(i as int, i + plen));
            assert(t.drop_first() =~= s@.skip(i + 1));
            assert(t[0] == s@[i as int]);
            out.push(s[i]);
            assert(out@ + replace_all(s@.skip(i + 1), pat@, rep@) =~= replace_all(
                s@,
                pat@,
                rep@,
            ));
            i += 1;
        }
    }
    if plen == 0 {
        push_chars(&mut out, rep);
    }
    assert(s@.skip(n as int) =~= Seq::<char>::empty());
    assert(out@ == replace_all(s@, pat@, rep@));
    out
}

/// Whether `p` occurs in `s` at position `i`.
pub fn occurs_at_chars(s: &[char], p: &[char], i: usize) -> (b: bool)
    requires
        i + p@.len() <= s@.len(),
    ensures
        b == occurs_at(s@, p@, i as int),
{
    occurs_at_exec(s, p, i)
}

/// A text whose first character is no whitespace keeps at least that character when
/// trimmed.
pub(crate) proof fn lemma_trim_nonempty(s: Seq<char>)
    requires
        s.len() > 0,
        !is_ws(s[0]),
    ensures
        trim(s).len() > 0,
{
    assert(trim_start(s) == s);
    lemma_trim_end_nonempty(s);
}

proof fn lemma_trim_end_nonempty(s: Seq<char>)
    requires
        s.len() > 0,
        !is_ws(s[0]),
    ensures
        trim_end(s).len() > 0,
    decreases s.len(),
{
    if is_ws(s.last()) {
        assert(s.drop_last()[0] == s[0]);
        lemma_trim_end_nonempty(s.drop_last());
    }
}

/// The first `c` of `s` is at `k` where `s[k]` is `c` and no earlier character is.
pub(crate) proof fn lemma_first_index_at(s: Seq<char>, c: char, k: int)
    requires
        0 <= k < s.len(),
        s[k] == c,
        forall|j: int| 0 <= j < k ==> s[j] != c,
    ensures
        first_index(s, c) == Some(k),
{
    lemma_first_index(s, c);
    match first_index(s, c) {
        Some(i) => {
            if i < k {
                assert(s[i] != c);
            }
            if i > k {
                assert(s[k] != c);
            }
        },
        None => {
            assert(s[k] != c);
        },
    }
}

/// Splitting `s + l`, where `l` holds no `c`, adds `l` to the last piece of `s`.
pub(crate) proof fn lemma_split_on_append(s: Seq<char>, l: Seq<char>, c: char)
    requires
        forall|i: int| 0 <= i < l.len() ==> l[i] != c,
    ensures
        split_on(s + l, c) == split_on(s, c).update(
            split_on(s, c).len() - 1,
            split_on(s, c).last() + l,
        ),
    decreases l.len(),
{
    lemma_split_on_len(s, c);
    let p = split_on(s, c);
    if l.len() == 0 {
        assert(s + l =~= s);
        assert(p.update(p.len() - 1, p.last() + l) =~= p);
    } else {
        lemma_split_on_append(s, l.drop_last(), c);
        assert((s + l).drop_last() =~= s + l.drop_last());
        assert((s + l).last() == l.last());
        let rest = split_on(s + l.drop_last(), c);
        assert(rest.last() == p.last() + l.drop_last());
        assert(rest.last().push(l.last()) =~= p.last() + l);
        assert(split_on(s + l, c) =~= p.update(p.len() - 1, p.last() + l));
    }
}

/// Splitting `s` followed by `c` gives the pieces of `s` and an empty one.
pub(crate) proof fn lemma_split_on_sep(s: Seq<char>, c: char)
    ensures
        split_on(s.push(c), c) == split_on(s, c).push(Seq::<char>::empty()),
{
    assert(s.push(c).drop_last() =~= s);
}

/// The decimal form of `n` is one or more ASCII digits.
pub(crate) proof fn lemma_decimal_digits(n: nat)
    ensures
        decimal(n).len() > 0,
        forall|i: int| 0 <= i < decimal(n).len() ==> is_digit(#[trigger] decimal(n)[i]),
    decreases n,
{
    if n >= 10 {
        lemma_decimal_digits(n / 10);
        let d = decimal(n / 10);
        assert forall|i: int| 0 <= i < decimal(n).len() implies is_digit(#[trigger] decimal(n)[i]) by {
            if i < d.len() {
                assert(decimal(n)[i] == d[i]);
            }
        }
    }
}

proof fn lemma_scan_decimal(n: nat)
    requires
        n <= usize::MAX,
    ensures
        scan_digits(decimal(n)) == Ok::<nat, IntErrorKind>(n),
    decreases n,
{
    let s = decimal(n);
    let d: int = if n < 10 {
        n as int
    } else {
        (n % 10) as int
    };
    assert(s.last() == digit_char(d));
    assert((digit_char(d) as u32) == d + 48);
    if n < 10 {
        assert(s.drop_last() =~= Seq::<char>::empty());
        assert(scan_digits(s.drop_last()) == Ok::<nat, IntErrorKind>(0));
    } else {
        lemma_scan_decimal(n / 10);
        assert(s.drop_last() =~= decimal(n / 10));
        assert((n / 10) * 10 + d == n);
    }
}

/// Reading the decimal form of `n` back gives `n`.
pub(crate) proof fn lemma_parse_decimal(n: nat)
    requires
        n <= usize::MAX,
    ensures
        parse_usize_result(decimal(n)) == Ok::<usize, IntErrorKind>(n as usize),
{
    lemma_decimal_digits(n);
    lemma_scan_decimal(n);
    assert(is_digit(decimal(n)[0]));
    assert(unsigned_body(decimal(n)) == decimal(n));
}

/// The decimal form of a number is its own trim.
pub(crate) proof fn lemma_trim_decimal(n: nat)
    ensures
        trim(decimal(n)) == decimal(n),
{
    lemma_decimal_digits(n);
    let s = decimal(n);
    assert(is_digit(s[0]));
    assert(is_digit(s[s.len() - 1]));
    lemma_trim_start(s, 0);
    assert(s.subrange(0, s.len() as int) =~= s);
    lemma_trim_end(s, s.len() as int);
}

/// `s` holds no line break: no newline and no carriage return.
pub open spec fn no_line_break(s: Seq<char>) -> bool {
    forall|i: int| 0 <= i < s.len() ==> #[trigger] s[i] != '\n' && s[i] != '\r'
}

/// Two texts without line breaks, put together, have none.
pub(crate) proof fn lemma_no_line_break_concat(a: Seq<char>, b: Seq<char>)
    requires
        no_line_break(a),
        no_line_break(b),
    ensures
        no_line_break(a + b),
{
    assert forall|i: int| 0 <= i < (a + b).len() implies #[trigger] (a + b)[i] != '\n' && (a
        + b)[i] != '\r' by {
        if i < a.len() {
            assert((a + b)[i] == a[i]);
        } else {
            assert((a + b)[i] == b[i - a.len()]);
        }
    }
}

/// Replacing each `c` by `rep` leaves only characters of `rep` and characters of `s` other
/// than `c`.
pub(crate) proof fn lemma_replace_char_chars(s: Seq<char>, c: char, rep: Seq<char>)
    ensures
        forall|i: int|
            0 <= i < replace_all(s, seq![c], rep).len() ==> rep.contains(
                #[trigger] replace_all(s, seq![c], rep)[i],
            ) || (s.contains(replace_all(s, seq![c], rep)[i]) && replace_all(s, seq![c], rep)[i]
                != c),
    decreases s.len(),
{
    let p = seq![c];
    if s.len() >= 1 {
        lemma_replace_char_chars(s.drop_first(), c, rep);
        assert(s.skip(1) =~= s.drop_first());
        let r = replace_all(s, p, rep);
        let tail = replace_all(s.drop_first(), p, rep);
        if s.take(1) == p {
            assert(r == rep + tail);
            assert forall|i: int| 0 <= i < r.len() implies rep.contains(#[trigger] r[i]) || (
            s.contains(r[i]) && r[i] != c) by {
                if i < rep.len() {
                    assert(r[i] == rep[i]);
                } else {
                    assert(r[i] == tail[i - rep.len()]);
                    if s.drop_first().contains(r[i]) {
                        let k = choose|k: int| 0 <= k < s.drop_first().len() && s.drop_first()[k] == r[i];
                        assert(s[k + 1] == r[i]);
                    }
                }
            }
        } else {
            assert(s.take(1) =~= seq![s[0]]);
            assert(s[0] != c);
            assert(r == seq![s[0]] + tail);
            assert forall|i: int| 0 <= i < r.len() implies rep.contains(#[trigger] r[i]) || (
            s.contains(r[i]) && r[i] != c) by {
                if i == 0 {
                    assert(r[0] == s[0]);
                } else {
                    assert(r[i] == tail[i - 1]);
                    if s.drop_first().contains(r[i]) {
                        let k = choose|k: int| 0 <= k < s.drop_first().len() && s.drop_first()[k] == r[i];
                        assert(s[k + 1] == r[i]);
                    }
                }
            }
        }
    }
}

/// Parts without line breaks, joined by a separator without them, have none.
pub(crate) proof fn lemma_join_no_line_break(parts: Seq<Seq<char>>, sep: Seq<char>)
    requires
        no_line_break(sep),
        forall|i: int| 0 <= i < parts.len() ==> no_line_break(#[trigger] parts[i]),
    ensures
        no_line_break(join(parts, sep)),
    decreases parts.len(),
{
    if parts.len() == 1 {
        assert(no_line_break(parts[0]));
    } else if parts.len() > 1 {
        let prev = parts.drop_last();
        assert forall|i: int| 0 <= i < prev.len() implies no_line_break(#[trigger] prev[i]) by {
            assert(prev[i] == parts[i]);
        }
        lemma_join_no_line_break(prev, sep);
        assert(no_line_break(parts[parts.len() - 1]));
        lemma_no_line_break_concat(join(prev, sep), sep);
        lemma_no_line_break_concat(join(prev, sep) + sep, parts.last());
    }
}

proof fn lemma_trim_start_idem(s: Seq<char>)
    ensures
        trim_start(trim_start(s)) == trim_start(s),
        trim_start(s).len() == 0 || !is_ws(trim_start(s)[0]),
    decreases s.len(),
{
    if s.len() > 0 && is_ws(s[0]) {
        lemma_trim_start_idem(s.drop_first());
    }
}

proof fn lemma_trim_end_prefix(s: Seq<char>)
    ensures
        trim_end(s) == s.take(trim_end(s).len() as int),
        trim_end(s).len() <= s.len(),
        trim_end(trim_end(s)) == trim_end(s),
    decreases s.len(),
{
    if s.len() > 0 && is_ws(s.last()) {
        lemma_trim_end_prefix(s.drop_last());
        let k = trim_end(s).len() as int;
        assert(s.drop_last().take(k) =~= s.take(k));
    } else {
        assert(s.take(s.len() as int) =~= s);
    }
}

/// Trimming twice is trimming once.
pub proof fn lemma_trim_idempotent(s: Seq<char>)
    ensures
        trim(trim(s)) == trim(s),
{
    let u = trim_start(s);
    lemma_trim_start_idem(s);
    let v = trim_end(u);
    lemma_trim_end_prefix(u);
    if v.len() > 0 {
        assert(v[0] == u[0]);
    }
    assert(trim_start(v) == v);
}

}
