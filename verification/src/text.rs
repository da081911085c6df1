//! Text primitives shared by the sysfs/procfs parsers.
//!
//! Every parser in this crate works on the character sequence of its input
//! (`s@`) and is specified by the spec functions below, which follow the
//! behaviour of the corresponding `str` methods: `trim` strips Unicode
//! `White_Space`, `lines` splits on `\n` and drops one trailing `\r`, integer
//! parsing accepts an optional leading `+` and rejects overflow.

use vstd::prelude::*;

verus! {

// ---------------------------------------------------------------------------
// Character classes
// ---------------------------------------------------------------------------

/// Unicode `White_Space`, the set `char::is_whitespace` accepts.
pub open spec fn is_ws(c: char) -> bool {
    let u = c as u32;
    ||| (0x09 <= u && u <= 0x0D)
    ||| u == 0x20
    ||| u == 0x85
    ||| u == 0xA0
    ||| u == 0x1680
    ||| (0x2000 <= u && u <= 0x200A)
    ||| u == 0x2028
    ||| u == 0x2029
    ||| u == 0x202F
    ||| u == 0x205F
    ||| u == 0x3000
}

pub fn is_ws_exec(c: char) -> (r: bool)
    ensures
        r == is_ws(c),
{
    let u = c as u32;
    (0x09 <= u && u <= 0x0D) || u == 0x20 || u == 0x85 || u == 0xA0 || u == 0x1680 || (0x2000
        <= u && u <= 0x200A) || u == 0x2028 || u == 0x2029 || u == 0x202F || u == 0x205F || u
        == 0x3000
}

pub open spec fn is_digit(c: char) -> bool {
    '0' as u32 <= c as u32 && c as u32 <= '9' as u32
}

pub open spec fn digit_val(c: char) -> nat {
    (c as u32 - '0' as u32) as nat
}

pub open spec fn is_hex_digit(c: char) -> bool {
    ||| is_digit(c)
    ||| ('a' as u32 <= c as u32 && c as u32 <= 'f' as u32)
    ||| ('A' as u32 <= c as u32 && c as u32 <= 'F' as u32)
}

pub open spec fn hex_val(c: char) -> nat {
    if is_digit(c) {
        digit_val(c)
    } else if 'a' as u32 <= c as u32 && c as u32 <= 'f' as u32 {
        (c as u32 - 'a' as u32 + 10) as nat
    } else {
        (c as u32 - 'A' as u32 + 10) as nat
    }
}

pub open spec fn digit_char(d: nat) -> char {
    (('0' as u32) + d) as char
}

pub open spec fn lower_char(c: char) -> char {
    if 'A' as u32 <= c as u32 && c as u32 <= 'Z' as u32 {
        ((c as u32) + 32) as char
    } else {
        c
    }
}

pub fn is_digit_exec(c: char) -> (r: bool)
    ensures
        r == is_digit(c),
{
    '0' <= c && c <= '9'
}

pub fn is_hex_digit_exec(c: char) -> (r: bool)
    ensures
        r == is_hex_digit(c),
{
    ('0' <= c && c <= '9') || ('a' <= c && c <= 'f') || ('A' <= c && c <= 'F')
}

pub fn hex_val_exec(c: char) -> (r: u32)
    requires
        is_hex_digit(c),
    ensures
        r == hex_val(c),
        r < 16,
{
    let u = c as u32;
    if '0' <= c && c <= '9' {
        u - 48
    } else if 'a' <= c && c <= 'f' {
        u - 87
    } else {
        u - 55
    }
}

pub fn lower_char_exec(c: char) -> (r: char)
    ensures
        r == lower_char(c),
{
    if 'A' <= c && c <= 'Z' {
        let u = c as u32 + 32;
        assert(u < 128);
        (u as u8) as char
    } else {
        c
    }
}

// ---------------------------------------------------------------------------
// Whole-sequence predicates and transformations
// ---------------------------------------------------------------------------

pub open spec fn trim_start(s: Seq<char>) -> Seq<char>
    decreases s.len(),
{
    if s.len() > 0 && is_ws(s[0]) {
        trim_start(s.drop_first())
    } else {
        s
    }
}

pub open spec fn trim_end(s: Seq<char>) -> Seq<char>
    decreases s.len(),
{
    if s.len() > 0 && is_ws(s.last()) {
        trim_end(s.drop_last())
    } else {
        s
    }
}

/// `str::trim`.
pub open spec fn trim(s: Seq<char>) -> Seq<char> {
    trim_end(trim_start(s))
}

pub open spec fn starts_with(s: Seq<char>, p: Seq<char>) -> bool {
    p.len() <= s.len() && s.take(p.len() as int) == p
}

pub open spec fn ends_with(s: Seq<char>, p: Seq<char>) -> bool {
    p.len() <= s.len() && s.skip(s.len() - p.len()) == p
}

/// `p` occurs in `s` at position `i`.
pub open spec fn occurs_at(s: Seq<char>, p: Seq<char>, i: int) -> bool {
    0 <= i && i + p.len() <= s.len() && s.subrange(i, i + p.len()) == p
}

/// `str::contains` with a string pattern.
pub open spec fn contains(s: Seq<char>, p: Seq<char>) -> bool {
    exists|i: int| occurs_at(s, p, i)
}

pub open spec fn to_lower(s: Seq<char>) -> Seq<char> {
    s.map_values(|c: char| lower_char(c))
}

/// Position of the first `c` in `s`.
pub open spec fn first_index(s: Seq<char>, c: char) -> Option<int>
    decreases s.len(),
{
    if s.len() == 0 {
        None
    } else if s[0] == c {
        Some(0)
    } else {
        match first_index(s.drop_first(), c) {
            Some(i) => Some(i + 1),
            None => None,
        }
    }
}

/// Position of the last `c` in `s`.
pub open spec fn last_index(s: Seq<char>, c: char) -> Option<int>
    decreases s.len(),
{
    if s.len() == 0 {
        None
    } else if s.last() == c {
        Some(s.len() - 1)
    } else {
        last_index(s.drop_last(), c)
    }
}

/// `str::split_once` with a character separator.
pub open spec fn split_once(s: Seq<char>, c: char) -> Option<(Seq<char>, Seq<char>)> {
    match first_index(s, c) {
        Some(i) => Some((s.take(i), s.skip(i + 1))),
        None => None,
    }
}

/// `str::split` with a character separator (always at least one piece).
pub open spec fn split(s: Seq<char>, c: char) -> Seq<Seq<char>>
    decreases s.len(),
{
    match first_index(s, c) {
        Some(i) => {
            if 0 <= i < s.len() {
                seq![s.take(i)] + split(s.skip(i + 1), c)
            } else {
                seq![s]
            }
        },
        None => seq![s],
    }
}

pub open spec fn strip_cr(s: Seq<char>) -> Seq<char> {
    if s.len() > 0 && s.last() == '\r' {
        s.drop_last()
    } else {
        s
    }
}

/// `str::lines`.
pub open spec fn lines(s: Seq<char>) -> Seq<Seq<char>>
    decreases s.len(),
{
    if s.len() == 0 {
        seq![]
    } else {
        match first_index(s, '\n') {
            Some(i) => {
                if 0 <= i < s.len() {
                    seq![strip_cr(s.take(i))] + lines(s.skip(i + 1))
                } else {
                    seq![strip_cr(s)]
                }
            },
            None => seq![strip_cr(s)],
        }
    }
}

/// Position of the first whitespace character in `s`.
pub open spec fn first_ws(s: Seq<char>) -> Option<int>
    decreases s.len(),
{
    if s.len() == 0 {
        None
    } else if is_ws(s[0]) {
        Some(0)
    } else {
        match first_ws(s.drop_first()) {
            Some(i) => Some(i + 1),
            None => None,
        }
    }
}

/// `str::split_whitespace`.
pub open spec fn tokens(s: Seq<char>) -> Seq<Seq<char>>
    decreases s.len(),
{
    let t = trim_start(s);
    if t.len() == 0 || t.len() > s.len() {
        seq![]
    } else {
        match first_ws(t) {
            Some(k) => {
                if 0 < k < t.len() {
                    seq![t.take(k)] + tokens(t.skip(k))
                } else {
                    seq![t]
                }
            },
            None => seq![t],
        }
    }
}

// ---------------------------------------------------------------------------
// Numbers
// ---------------------------------------------------------------------------

pub open spec fn all_digits(s: Seq<char>) -> bool {
    forall|i: int| 0 <= i < s.len() ==> is_digit(#[trigger] s[i])
}

pub open spec fn dec_value(s: Seq<char>) -> nat
    decreases s.len(),
{
    if s.len() == 0 {
        0
    } else {
        dec_value(s.drop_last()) * 10 + digit_val(s.last())
    }
}

/// The digits of an unsigned integer literal as `str::parse` accepts it: an
/// optional leading `+`.
pub open spec fn unsigned_digits(s: Seq<char>) -> Seq<char> {
    if s.len() > 0 && s[0] == '+' {
        s.drop_first()
    } else {
        s
    }
}

/// `str::parse` for an unsigned integer type whose maximum is `max`.
pub open spec fn parse_uint(s: Seq<char>, max: nat) -> Option<nat> {
    let d = unsigned_digits(s);
    if d.len() > 0 && all_digits(d) && dec_value(d) <= max {
        Some(dec_value(d))
    } else {
        None
    }
}

pub open spec fn all_hex(s: Seq<char>) -> bool {
    forall|i: int| 0 <= i < s.len() ==> is_hex_digit(#[trigger] s[i])
}

pub open spec fn hex_value(s: Seq<char>) -> nat
    decreases s.len(),
{
    if s.len() == 0 {
        0
    } else {
        hex_value(s.drop_last()) * 16 + hex_val(s.last())
    }
}

/// `from_str_radix(s, 16)` for an unsigned type whose maximum is `max`.
pub open spec fn parse_hex(s: Seq<char>, max: nat) -> Option<nat> {
    let d = unsigned_digits(s);
    if d.len() > 0 && all_hex(d) && hex_value(d) <= max {
        Some(hex_value(d))
    } else {
        None
    }
}

/// Decimal rendering of `n` (`n.to_string()`).
pub open spec fn dec_repr(n: nat) -> Seq<char>
    decreases n,
{
    if n < 10 {
        seq![digit_char(n)]
    } else {
        dec_repr(n / 10).push(digit_char(n % 10))
    }
}

// ---------------------------------------------------------------------------
// Lemmas
// ---------------------------------------------------------------------------

pub proof fn lemma_first_index_found(s: Seq<char>, c: char, i: int)
    requires
        0 <= i < s.len(),
        s[i] == c,
        forall|j: int| 0 <= j < i ==> s[j] != c,
    ensures
        first_index(s, c) == Some(i),
    decreases i,
{
    if i > 0 {
        lemma_first_index_found(s.drop_first(), c, i - 1);
    }
}

pub proof fn lemma_first_index_absent(s: Seq<char>, c: char)
    requires
        forall|j: int| 0 <= j < s.len() ==> s[j] != c,
    ensures
        first_index(s, c) is None,
    decreases s.len(),
{
    if s.len() > 0 {
        lemma_first_index_absent(s.drop_first(), c);
    }
}

pub proof fn lemma_first_index_props(s: Seq<char>, c: char)
    ensures
        match first_index(s, c) {
            Some(i) => 0 <= i < s.len() && s[i] == c && forall|j: int| 0 <= j < i ==> s[j] != c,
            None => forall|j: int| 0 <= j < s.len() ==> s[j] != c,
        },
    decreases s.len(),
{
    if s.len() > 0 {
        lemma_first_index_props(s.drop_first(), c);
        if s[0] != c {
            match first_index(s.drop_first(), c) {
                Some(i) => {
                    assert forall|j: int| 0 <= j < i + 1 implies s[j] != c by {
                        if j > 0 {
                            assert(s[j] == s.drop_first()[j - 1]);
                        }
                    }
                },
                None => {
                    assert forall|j: int| 0 <= j < s.len() implies s[j] != c by {
                        if j > 0 {
                            assert(s[j] == s.drop_first()[j - 1]);
                        }
                    }
                },
            }
        }
    }
}

pub proof fn lemma_last_index_props(s: Seq<char>, c: char)
    ensures
        match last_index(s, c) {
            Some(i) => 0 <= i < s.len() && s[i] == c && forall|j: int| i < j < s.len() ==> s[j] != c,
            None => forall|j: int| 0 <= j < s.len() ==> s[j] != c,
        },
    decreases s.len(),
{
    if s.len() > 0 && s.last() != c {
        let t = s.drop_last();
        lemma_last_index_props(t, c);
        match last_index(t, c) {
            Some(i) => {
                assert forall|j: int| i < j < s.len() implies s[j] != c by {
                    if j < s.len() - 1 {
                        assert(s[j] == t[j]);
                    }
                }
            },
            None => {
                assert forall|j: int| 0 <= j < s.len() implies s[j] != c by {
                    if j < s.len() - 1 {
                        assert(s[j] == t[j]);
                    }
                }
            },
        }
    }
}

pub proof fn lemma_trim_start_skip(s: Seq<char>, i: int)
    requires
        0 <= i <= s.len(),
        forall|j: int| 0 <= j < i ==> is_ws(s[j]),
    ensures
        trim_start(s) == trim_start(s.skip(i)),
    decreases i,
{
    if i > 0 {
        assert(s.drop_first().skip(i - 1) =~= s.skip(i));
        lemma_trim_start_skip(s.drop_first(), i - 1);
    } else {
        assert(s.skip(0) =~= s);
    }
}

pub proof fn lemma_trim_end_take(s: Seq<char>, i: int)
    requires
        0 <= i <= s.len(),
        forall|j: int| i <= j < s.len() ==> is_ws(s[j]),
    ensures
        trim_end(s) == trim_end(s.take(i)),
    decreases s.len() - i,
{
    if i < s.len() {
        assert(s.drop_last().take(i) =~= s.take(i));
        lemma_trim_end_take(s.drop_last(), i);
    } else {
        assert(s.take(i) =~= s);
    }
}

pub proof fn lemma_trim_start_len(s: Seq<char>)
    ensures
        trim_start(s).len() <= s.len(),
        trim_start(s).len() > 0 ==> !is_ws(trim_start(s)[0]),
        exists|k: int| 0 <= k <= s.len() && trim_start(s) == s.skip(k),
    decreases s.len(),
{
    if s.len() > 0 && is_ws(s[0]) {
        lemma_trim_start_len(s.drop_first());
        let k = choose|k: int| 0 <= k <= s.drop_first().len() && trim_start(s.drop_first()) == s.drop_first().skip(k);
        assert(s.drop_first().skip(k) =~= s.skip(k + 1));
    } else {
        assert(s.skip(0) =~= s);
    }
}

pub proof fn lemma_first_ws_props(s: Seq<char>)
    ensures
        match first_ws(s) {
            Some(i) => 0 <= i < s.len() && is_ws(s[i]) && forall|j: int| 0 <= j < i ==> !is_ws(s[j]),
            None => forall|j: int| 0 <= j < s.len() ==> !is_ws(s[j]),
        },
    decreases s.len(),
{
    if s.len() > 0 && !is_ws(s[0]) {
        let t = s.drop_first();
        lemma_first_ws_props(t);
        match first_ws(t) {
            Some(i) => {
                assert forall|j: int| 0 <= j < i + 1 implies !is_ws(s[j]) by {
                    if j > 0 {
                        assert(s[j] == t[j - 1]);
                    }
                }
            },
            None => {
                assert forall|j: int| 0 <= j < s.len() implies !is_ws(s[j]) by {
                    if j > 0 {
                        assert(s[j] == t[j - 1]);
                    }
                }
            },
        }
    }
}

pub proof fn lemma_first_ws_found(s: Seq<char>, i: int)
    requires
        0 <= i < s.len(),
        is_ws(s[i]),
        forall|j: int| 0 <= j < i ==> !is_ws(s[j]),
    ensures
        first_ws(s) == Some(i),
    decreases i,
{
    if i > 0 {
        lemma_first_ws_found(s.drop_first(), i - 1);
    }
}

pub proof fn lemma_first_ws_absent(s: Seq<char>)
    requires
        forall|j: int| 0 <= j < s.len() ==> !is_ws(s[j]),
    ensures
        first_ws(s) is None,
    decreases s.len(),
{
    if s.len() > 0 {
        lemma_first_ws_absent(s.drop_first());
    }
}

pub proof fn lemma_dec_value_prefix(s: Seq<char>, k: int)
    requires
        0 <= k <= s.len(),
        all_digits(s),
    ensures
        dec_value(s.take(k)) <= dec_value(s),
    decreases s.len() - k,
{
    if k < s.len() {
        assert(s.drop_last().take(k) =~= s.take(k));
        lemma_dec_value_prefix(s.drop_last(), k);
    } else {
        assert(s.take(k) =~= s);
    }
}

pub proof fn lemma_hex_value_prefix(s: Seq<char>, k: int)
    requires
        0 <= k <= s.len(),
    ensures
        hex_value(s.take(k)) <= hex_value(s),
    decreases s.len() - k,
{
    if k < s.len() {
        assert(s.drop_last().take(k) =~= s.take(k));
        lemma_hex_value_prefix(s.drop_last(), k);
    } else {
        assert(s.take(k) =~= s);
    }
}

pub proof fn lemma_dec_repr_digits(n: nat)
    ensures
        all_digits(dec_repr(n)),
        dec_repr(n).len() > 0,
    decreases n,
{
    if n >= 10 {
        lemma_dec_repr_digits(n / 10);
    }
}

/// Reading back a decimal rendering gives the number.
pub proof fn lemma_dec_value_repr(n: nat)
    ensures
        dec_value(dec_repr(n)) == n,
    decreases n,
{
    if n < 10 {
        let r = dec_repr(n);
        assert(r.drop_last() =~= Seq::<char>::empty());
        assert(digit_val(digit_char(n)) == n);
        assert(dec_value(r) == dec_value(r.drop_last()) * 10 + digit_val(r.last()));
    } else {
        lemma_dec_value_repr(n / 10);
        let r = dec_repr(n);
        assert(r.drop_last() =~= dec_repr(n / 10));
        assert(r.last() == digit_char(n % 10));
        assert(digit_val(digit_char(n % 10)) == n % 10);
        assert(dec_value(r) == dec_value(r.drop_last()) * 10 + digit_val(r.last()));
        assert((n / 10) * 10 + n % 10 == n) by (nonlinear_arith);
    }
}

/// `str::parse` reads back what `to_string` wrote.
pub proof fn lemma_parse_dec_repr(n: nat, max: nat)
    requires
        n <= max,
    ensures
        parse_uint(dec_repr(n), max) == Some(n),
{
    lemma_dec_repr_digits(n);
    lemma_dec_value_repr(n);
    let d = dec_repr(n);
    assert(is_digit(d[0]));
    assert(unsigned_digits(d) == d);
}

pub proof fn lemma_trim_end_props(s: Seq<char>)
    ensures
        trim_end(s).len() <= s.len(),
        trim_end(s) == s.take(trim_end(s).len() as int),
        trim_end(s).len() > 0 ==> !is_ws(trim_end(s).last()),
    decreases s.len(),
{
    if s.len() > 0 && is_ws(s.last()) {
        lemma_trim_end_props(s.drop_last());
        assert(s.drop_last().take(trim_end(s.drop_last()).len() as int) =~= s.take(
            trim_end(s.drop_last()).len() as int,
        ));
    } else {
        assert(s.take(s.len() as int) =~= s);
    }
}

/// A text without surrounding whitespace is its own trim.
pub proof fn lemma_trim_unchanged(s: Seq<char>)
    requires
        s.len() > 0 ==> !is_ws(s[0]) && !is_ws(s.last()),
    ensures
        trim(s) == s,
{
}

/// Trimming twice is trimming once.
pub proof fn lemma_trim_idempotent(s: Seq<char>)
    ensures
        trim(trim(s)) == trim(s),
{
    lemma_trim_start_len(s);
    let a = trim_start(s);
    lemma_trim_end_props(a);
    let t = trim_end(a);
    if t.len() > 0 {
        assert(t[0] == a[0]);
    }
    lemma_trim_unchanged(t);
}

/// A decimal rendering has no surrounding whitespace.
pub proof fn lemma_trim_dec_repr(n: nat)
    ensures
        trim(dec_repr(n)) == dec_repr(n),
{
    lemma_dec_repr_digits(n);
    let d = dec_repr(n);
    assert(is_digit(d[0]) && is_digit(d[d.len() - 1]));
    lemma_trim_unchanged(d);
}

// ---------------------------------------------------------------------------
// Conversions between `str` / `String` and character vectors
// ---------------------------------------------------------------------------

pub fn chars_of(s: &str) -> (v: Vec<char>)
    ensures
        v@ == s@,
{
    let mut v: Vec<char> = Vec::new();
    for c in it: s.chars()
        invariant
            v@.len() == it.index(),
            forall|i: int| 0 <= i < v@.len() ==> v@[i] == it.seq()[i],
    {
        v.push(c);
    }
    proof {
        broadcast use vstd::string::group_string_axioms;
    }
    assert(v@ =~= s@);
    v
}

/// `String::push`: appends `c` to the end of the string, as the standard
/// library documents; nothing else about the string changes.
#[verifier::external_body]
fn push_char(s: &mut String, c: char)
    ensures
        final(s)@ == old(s)@.push(c),
{
    s.push(c);
}

pub fn string_of(v: &[char]) -> (s: String)
    ensures
        s@ == v@,
{
    let mut s = String::new();
    for i in 0..v.len()
        invariant
            s@ == v@.take(i as int),
    {
        push_char(&mut s, v[i]);
        assert(v@.take(i as int).push(v@[i as int]) =~= v@.take(i + 1));
    }
    assert(v@.take(v@.len() as int) =~= v@);
    s
}

pub fn slice_vec(v: &Vec<char>, lo: usize, hi: usize) -> (r: Vec<char>)
    requires
        lo <= hi <= v@.len(),
    ensures
        r@ == v@.subrange(lo as int, hi as int),
{
    let mut r: Vec<char> = Vec::new();
    let mut i = lo;
    while i < hi
        invariant
            lo <= i <= hi <= v@.len(),
            r@ == v@.subrange(lo as int, i as int),
        decreases hi - i,
    {
        r.push(v[i]);
        assert(v@.subrange(lo as int, i as int).push(v@[i as int]) =~= v@.subrange(
            lo as int,
            i + 1,
        ));
        i = i + 1;
    }
    r
}

pub fn append_chars(out: &mut Vec<char>, v: &[char])
    ensures
        final(out)@ == old(out)@ + v@,
{
    let ghost start = out@;
    for i in 0..v.len()
        invariant
            out@ == start + v@.take(i as int),
    {
        out.push(v[i]);
        assert(start + v@.take(i as int).push(v@[i as int]) =~= start + v@.take(i + 1));
    }
    assert(v@.take(v@.len() as int) =~= v@);
}

pub fn append_str(out: &mut Vec<char>, s: &str)
    ensures
        final(out)@ == old(out)@ + s@,
{
    let v = chars_of(s);
    append_chars(out, v.as_slice());
}

pub fn eq_chars(a: &[char], b: &[char]) -> (r: bool)
    ensures
        r == (a@ == b@),
{
    if a.len() != b.len() {
        return false;
    }
    for i in 0..a.len()
        invariant
            a@.len() == b@.len(),
            forall|j: int| 0 <= j < i ==> a@[j] == b@[j],
    {
        if a[i] != b[i] {
            return false;
        }
    }
    assert(a@ =~= b@);
    true
}

pub fn str_eq(a: &str, b: &str) -> (r: bool)
    ensures
        r == (a@ == b@),
{
    let va = chars_of(a);
    let vb = chars_of(b);
    eq_chars(va.as_slice(), vb.as_slice())
}

// ---------------------------------------------------------------------------
// Searching and trimming on character vectors
// ---------------------------------------------------------------------------

/// Bounds of `trim(v@)` inside `v`.
pub fn trim_bounds(v: &[char]) -> (r: (usize, usize))
    ensures
        r.0 <= r.1 <= v@.len(),
        trim(v@) == v@.subrange(r.0 as int, r.1 as int),
{
    let n = v.len();
    let mut lo: usize = 0;
    while lo < n && is_ws_exec(v[lo])
        invariant
            lo <= n == v@.len(),
            forall|j: int| 0 <= j < lo ==> is_ws(v@[j]),
        decreases n - lo,
    {
        lo = lo + 1;
    }
    proof {
        lemma_trim_start_skip(v@, lo as int);
        if lo < n {
            assert(trim_start(v@.skip(lo as int)) == v@.skip(lo as int));
        } else {
            assert(v@.skip(lo as int).len() == 0);
        }
    }
    let mut hi: usize = n;
    while hi > lo && is_ws_exec(v[hi - 1])
        invariant
            lo <= hi <= n == v@.len(),
            forall|j: int| hi <= j < n ==> is_ws(v@[j]),
        decreases hi,
    {
        hi = hi - 1;
    }
    proof {
        let t = v@.skip(lo as int);
        assert forall|j: int| (hi - lo) <= j < t.len() implies is_ws(t[j]) by {
            assert(t[j] == v@[j + lo]);
        }
        lemma_trim_end_take(t, hi - lo);
        let u = t.take(hi - lo);
        assert(u =~= v@.subrange(lo as int, hi as int));
        if hi > lo {
            assert(u.last() == v@[hi - 1]);
        }
    }
    (lo, hi)
}

pub fn trim_vec(v: &Vec<char>) -> (r: Vec<char>)
    ensures
        r@ == trim(v@),
{
    let (lo, hi) = trim_bounds(v.as_slice());
    slice_vec(v, lo, hi)
}

pub fn trim_str(s: &str) -> (r: Vec<char>)
    ensures
        r@ == trim(s@),
{
    let v = chars_of(s);
    trim_vec(&v)
}

pub fn find_char(v: &[char], c: char) -> (r: Option<usize>)
    ensures
        r == (match first_index(v@, c) {
            Some(i) => Some(i as usize),
            None => None::<usize>,
        }),
        match r {
            Some(i) => i < v@.len() && v@[i as int] == c,
            None => true,
        },
{
    for i in 0..v.len()
        invariant
            forall|j: int| 0 <= j < i ==> v@[j] != c,
    {
        if v[i] == c {
            proof {
                lemma_first_index_found(v@, c, i as int);
            }
            return Some(i);
        }
    }
    proof {
        lemma_first_index_absent(v@, c);
    }
    None
}

pub fn find_last_char(v: &[char], c: char) -> (r: Option<usize>)
    ensures
        r == (match last_index(v@, c) {
            Some(i) => Some(i as usize),
            None => None::<usize>,
        }),
{
    let mut i = v.len();
    assert(v@.take(v@.len() as int) =~= v@);
    while i > 0
        invariant
            i <= v@.len(),
            last_index(v@, c) == last_index(v@.take(i as int), c),
        decreases i,
    {
        let ghost t = v@.take(i as int);
        if v[i - 1] == c {
            assert(t.last() == c);
            return Some(i - 1);
        }
        assert(t.drop_last() =~= v@.take(i - 1));
        i = i - 1;
    }
    assert(v@.take(0).len() == 0);
    assert(v@.take(v@.len() as int) =~= v@);
    None
}

pub fn starts_with_vec(v: &[char], p: &[char]) -> (r: bool)
    ensures
        r == starts_with(v@, p@),
{
    if p.len() > v.len() {
        return false;
    }
    for i in 0..p.len()
        invariant
            p@.len() <= v@.len(),
            forall|j: int| 0 <= j < i ==> v@[j] == p@[j],
    {
        if v[i] != p[i] {
            assert(v@.take(p@.len() as int)[i as int] != p@[i as int]);
            return false;
        }
    }
    assert(v@.take(p@.len() as int) =~= p@);
    true
}

pub fn starts_with_str(v: &[char], p: &str) -> (r: bool)
    ensures
        r == starts_with(v@, p@),
{
    let pv = chars_of(p);
    starts_with_vec(v, pv.as_slice())
}

pub fn ends_with_vec(v: &[char], p: &[char]) -> (r: bool)
    ensures
        r == ends_with(v@, p@),
{
    if p.len() > v.len() {
        return false;
    }
    let off = v.len() - p.len();
    for i in 0..p.len()
        invariant
            p@.len() <= v@.len() <= usize::MAX,
            off == v@.len() - p@.len(),
            forall|j: int| 0 <= j < i ==> v@[off + j] == p@[j],
    {
        let idx = off + i;
        if v[idx] != p[i] {
            assert(v@.skip(off as int)[i as int] != p@[i as int]);
            return false;
        }
    }
    assert(v@.skip(off as int) =~= p@);
    true
}

pub fn ends_with_str(v: &[char], p: &str) -> (r: bool)
    ensures
        r == ends_with(v@, p@),
{
    let pv = chars_of(p);
    ends_with_vec(v, pv.as_slice())
}

pub fn occurs_at_exec(v: &[char], p: &[char], i: usize) -> (r: bool)
    ensures
        r == occurs_at(v@, p@, i as int),
{
    if i > v.len() || p.len() > v.len() - i {
        return false;
    }
    for k in 0..p.len()
        invariant
            i + p@.len() <= v@.len() <= usize::MAX,
            forall|j: int| 0 <= j < k ==> v@[i + j] == p@[j],
    {
        let idx = i + k;
        if v[idx] != p[k] {
            assert(v@.subrange(i as int, i + p@.len())[k as int] != p@[k as int]);
            return false;
        }
    }
    assert(v@.subrange(i as int, i + p@.len()) =~= p@);
    true
}

pub fn contains_vec(v: &[char], p: &[char]) -> (r: bool)
    ensures
        r == contains(v@, p@),
{
    if p.len() > v.len() {
        assert forall|i: int| !occurs_at(v@, p@, i) by {}
        return false;
    }
    let last = v.len() - p.len();
    let mut i: usize = 0;
    loop
        invariant
            p@.len() <= v@.len(),
            last == v@.len() - p@.len(),
            i <= last,
            forall|j: int| 0 <= j < i ==> !occurs_at(v@, p@, j),
        ensures
            forall|j: int| 0 <= j <= last ==> !occurs_at(v@, p@, j),
        decreases last - i,
    {
        if occurs_at_exec(v, p, i) {
            return true;
        }
        if i == last {
            break;
        }
        i = i + 1;
    }
    false
}

pub fn contains_str(v: &[char], p: &str) -> (r: bool)
    ensures
        r == contains(v@, p@),
{
    let pv = chars_of(p);
    contains_vec(v, pv.as_slice())
}

pub fn to_lower_vec(v: &[char]) -> (r: Vec<char>)
    ensures
        r@ == to_lower(v@),
{
    let mut r: Vec<char> = Vec::new();
    for i in 0..v.len()
        invariant
            r@ == to_lower(v@.take(i as int)),
    {
        r.push(lower_char_exec(v[i]));
        assert(to_lower(v@.take(i as int)).push(lower_char(v@[i as int])) =~= to_lower(
            v@.take(i + 1),
        ));
    }
    assert(v@.take(v@.len() as int) =~= v@);
    r
}

pub fn find_char_from(v: &[char], c: char, lo: usize) -> (r: Option<usize>)
    requires
        lo <= v@.len(),
    ensures
        r == (match first_index(v@.skip(lo as int), c) {
            Some(i) => Some((i + lo) as usize),
            None => None::<usize>,
        }),
        match r {
            Some(i) => lo <= i < v@.len() && v@[i as int] == c,
            None => true,
        },
{
    let ghost t = v@.skip(lo as int);
    let mut i = lo;
    while i < v.len()
        invariant
            lo <= i <= v@.len(),
            t == v@.skip(lo as int),
            forall|j: int| 0 <= j < i - lo ==> t[j] != c,
        decreases v@.len() - i,
    {
        if v[i] == c {
            proof {
                lemma_first_index_found(t, c, i - lo);
            }
            return Some(i);
        }
        i = i + 1;
    }
    proof {
        lemma_first_index_absent(t, c);
    }
    None
}

/// `str::lines` on a character vector.
pub fn lines_of(v: &Vec<char>) -> (r: Vec<Vec<char>>)
    ensures
        r@.len() == lines(v@).len(),
        forall|k: int| 0 <= k < r@.len() ==> #[trigger] r@[k]@ == lines(v@)[k],
{
    let mut r: Vec<Vec<char>> = Vec::new();
    let ghost mut acc: Seq<Seq<char>> = seq![];
    let mut pos: usize = 0;
    assert(v@.skip(0) =~= v@);
    assert(acc + lines(v@) =~= lines(v@));
    while pos < v.len()
        invariant
            pos <= v@.len(),
            lines(v@) == acc + lines(v@.skip(pos as int)),
            r@.len() == acc.len(),
            forall|k: int| 0 <= k < r@.len() ==> #[trigger] r@[k]@ == acc[k],
        decreases v@.len() - pos,
    {
        let ghost rest = v@.skip(pos as int);
        proof {
            lemma_first_index_props(rest, '\n');
        }
        match find_char_from(v.as_slice(), '\n', pos) {
            Some(j) => {
                let mut end = j;
                if end > pos && v[end - 1] == '\r' {
                    end = end - 1;
                }
                let line = slice_vec(v, pos, end);
                proof {
                    let i = j - pos;
                    assert(rest.take(i) =~= v@.subrange(pos as int, j as int));
                    assert(rest.skip(i + 1) =~= v@.skip(j + 1));
                    if end < j {
                        assert(strip_cr(rest.take(i)) =~= v@.subrange(pos as int, end as int));
                    } else {
                        assert(strip_cr(rest.take(i)) =~= v@.subrange(pos as int, end as int));
                    }
                    acc = acc.push(line@);
                    assert(seq![strip_cr(rest.take(i))] + lines(rest.skip(i + 1)) == lines(rest));
                }
                r.push(line);
                pos = j + 1;
                proof {
                    assert(lines(v@) =~= acc + lines(v@.skip(pos as int)));
                }
            },
            None => {
                let mut end = v.len();
                if end > pos && v[end - 1] == '\r' {
                    end = end - 1;
                }
                let line = slice_vec(v, pos, end);
                proof {
                    assert(strip_cr(rest) =~= v@.subrange(pos as int, end as int));
                    assert(lines(rest) == seq![strip_cr(rest)]);
                    acc = acc.push(line@);
                }
                r.push(line);
                pos = v.len();
                proof {
                    assert(v@.skip(pos as int).len() == 0);
                    assert(lines(v@) =~= acc + lines(v@.skip(pos as int)));
                }
            },
        }
    }
    proof {
        assert(v@.skip(pos as int).len() == 0);
        assert(lines(v@) =~= acc);
    }
    r
}

/// `str::split` with a character separator, on a character vector.
pub fn split_of(v: &Vec<char>, c: char) -> (r: Vec<Vec<char>>)
    ensures
        r@.len() == split(v@, c).len(),
        forall|k: int| 0 <= k < r@.len() ==> #[trigger] r@[k]@ == split(v@, c)[k],
{
    let mut r: Vec<Vec<char>> = Vec::new();
    let ghost mut acc: Seq<Seq<char>> = seq![];
    let mut pos: usize = 0;
    assert(v@.skip(0) =~= v@);
    assert(acc + split(v@, c) =~= split(v@, c));
    let n = v.len();
    loop
        invariant_except_break
            split(v@, c) == acc + split(v@.skip(pos as int), c),
        invariant
            n == v@.len(),
            pos <= v@.len() <= usize::MAX,
            r@.len() == acc.len(),
            forall|k: int| 0 <= k < r@.len() ==> #[trigger] r@[k]@ == acc[k],
        ensures
            split(v@, c) == acc,
            r@.len() == acc.len(),
            forall|k: int| 0 <= k < r@.len() ==> #[trigger] r@[k]@ == acc[k],
        decreases v@.len() - pos,
    {
        let ghost rest = v@.skip(pos as int);
        proof {
            lemma_first_index_props(rest, c);
        }
        match find_char_from(v.as_slice(), c, pos) {
            Some(j) => {
                let piece = slice_vec(v, pos, j);
                proof {
                    let i = j - pos;
                    assert(rest.take(i) =~= piece@);
                    assert(rest.skip(i + 1) =~= v@.skip(j + 1));
                    acc = acc.push(piece@);
                }
                r.push(piece);
                pos = j + 1;
                proof {
                    assert(split(v@, c) =~= acc + split(v@.skip(pos as int), c));
                }
            },
            None => {
                let piece = slice_vec(v, pos, v.len());
                proof {
                    assert(rest =~= piece@);
                    acc = acc.push(piece@);
                    assert(split(v@, c) =~= acc);
                }
                r.push(piece);
                break;
            },
        }
    }
    r
}

/// `str::split_once` with a character separator.
pub fn split_once_vec(v: &Vec<char>, c: char) -> (r: Option<(Vec<char>, Vec<char>)>)
    ensures
        match split_once(v@, c) {
            Some((a, b)) => match r {
                Some(pair) => pair.0@ == a && pair.1@ == b,
                None => false,
            },
            None => r is None,
        },
{
    proof {
        lemma_first_index_props(v@, c);
    }
    match find_char(v.as_slice(), c) {
        Some(i) => {
            let n = v.len();
            let a = slice_vec(v, 0, i);
            let b = slice_vec(v, i + 1, n);
            assert(a@ =~= v@.take(i as int));
            assert(b@ =~= v@.skip(i + 1));
            Some((a, b))
        },
        None => None,
    }
}

/// `str::split_whitespace`.
pub fn tokens_of(v: &Vec<char>) -> (r: Vec<Vec<char>>)
    ensures
        r@.len() == tokens(v@).len(),
        forall|k: int| 0 <= k < r@.len() ==> #[trigger] r@[k]@ == tokens(v@)[k],
{
    let mut r: Vec<Vec<char>> = Vec::new();
    let ghost mut acc: Seq<Seq<char>> = seq![];
    let mut pos: usize = 0;
    assert(v@.skip(0) =~= v@);
    assert(acc + tokens(v@) =~= tokens(v@));
    let n = v.len();
    loop
        invariant_except_break
            tokens(v@) == acc + tokens(v@.skip(pos as int)),
        invariant
            n == v@.len(),
            pos <= v@.len() <= usize::MAX,
            r@.len() == acc.len(),
            forall|k: int| 0 <= k < r@.len() ==> #[trigger] r@[k]@ == acc[k],
        ensures
            tokens(v@) == acc,
            r@.len() == acc.len(),
            forall|k: int| 0 <= k < r@.len() ==> #[trigger] r@[k]@ == acc[k],
        decreases v@.len() - pos,
    {
        let ghost rest = v@.skip(pos as int);
        let mut start = pos;
        while start < v.len() && is_ws_exec(v[start])
            invariant
                pos <= start <= v@.len(),
                rest == v@.skip(pos as int),
                forall|j: int| pos <= j < start ==> is_ws(v@[j]),
            decreases v@.len() - start,
        {
            start = start + 1;
        }
        proof {
            assert forall|j: int| 0 <= j < start - pos implies is_ws(rest[j]) by {
                assert(rest[j] == v@[j + pos]);
            }
            lemma_trim_start_skip(rest, start - pos);
            assert(rest.skip(start - pos) =~= v@.skip(start as int));
            if start < v.len() {
                assert(trim_start(v@.skip(start as int)) == v@.skip(start as int));
            } else {
                assert(v@.skip(start as int).len() == 0);
            }
        }
        if start == v.len() {
            proof {
                assert(trim_start(rest).len() == 0);
                assert(tokens(rest) == Seq::<Seq<char>>::empty());
                assert(tokens(v@) =~= acc);
            }
            break;
        }
        let ghost t = v@.skip(start as int);
        let mut end = start;
        while end < v.len() && !is_ws_exec(v[end])
            invariant
                start <= end <= v@.len(),
                t == v@.skip(start as int),
                forall|j: int| start <= j < end ==> !is_ws(v@[j]),
            decreases v@.len() - end,
        {
            end = end + 1;
        }
        let tok = slice_vec(v, start, end);
        proof {
            let k = end - start;
            assert(trim_start(rest) == t);
            if end < v.len() {
                lemma_first_ws_found(t, k);
                assert(t[k] == v@[end as int]);
            } else {
                assert forall|j: int| 0 <= j < t.len() implies !is_ws(t[j]) by {
                    assert(t[j] == v@[j + start]);
                }
                lemma_first_ws_absent(t);
            }
            assert(t.take(k) =~= tok@);
            assert(t.skip(k) =~= v@.skip(end as int));
            if end == v.len() {
                assert(t =~= tok@);
            }
            lemma_trim_start_len(rest);
            acc = acc.push(tok@);
        }
        r.push(tok);
        pos = end;
        proof {
            if pos == v.len() {
                assert(v@.skip(pos as int).len() == 0);
                assert(trim_start(v@.skip(pos as int)).len() == 0);
            }
            assert(tokens(v@) =~= acc + tokens(v@.skip(pos as int)));
        }
    }
    r
}

// ---------------------------------------------------------------------------
// Number parsing and rendering
// ---------------------------------------------------------------------------

/// Decimal digits only, value at most `max` (no sign handling).
fn parse_digits(v: &[char], lo: usize, max: u64) -> (r: Option<u64>)
    requires
        lo <= v@.len(),
    ensures
        ({
            let d = v@.skip(lo as int);
            r == (if d.len() > 0 && all_digits(d) && dec_value(d) <= max {
                Some(dec_value(d) as u64)
            } else {
                None::<u64>
            })
        }),
{
    let ghost d = v@.skip(lo as int);
    if lo == v.len() {
        return None;
    }
    let mut acc: u128 = 0;
    let mut i = lo;
    while i < v.len()
        invariant
            lo <= i <= v@.len(),
            d == v@.skip(lo as int),
            all_digits(d.take(i - lo)),
            acc == dec_value(d.take(i - lo)),
            acc <= max,
        decreases v@.len() - i,
    {
        let c = v[i];
        let ghost pre = d.take(i - lo);
        let ghost nxt = d.take(i - lo + 1);
        assert(nxt.drop_last() =~= pre);
        assert(nxt.last() == c);
        if !is_digit_exec(c) {
            assert(!is_digit(d[i - lo]));
            return None;
        }
        acc = acc * 10 + (c as u32 - 48) as u128;
        assert(all_digits(nxt)) by {
            assert forall|j: int| 0 <= j < nxt.len() implies is_digit(#[trigger] nxt[j]) by {
                if j < pre.len() {
                    assert(nxt[j] == pre[j]);
                }
            }
        }
        if acc > max as u128 {
            proof {
                if all_digits(d) {
                    lemma_dec_value_prefix(d, i - lo + 1);
                }
            }
            return None;
        }
        i = i + 1;
    }
    assert(d.take(i - lo) =~= d);
    Some(acc as u64)
}

/// `str::parse` of an unsigned integer bounded by `max`, on `v[lo..]`.
pub fn parse_uint_from(v: &[char], lo: usize, max: u64) -> (r: Option<u64>)
    requires
        lo <= v@.len(),
    ensures
        r == (match parse_uint(v@.skip(lo as int), max as nat) {
            Some(n) => Some(n as u64),
            None => None::<u64>,
        }),
{
    let ghost s = v@.skip(lo as int);
    if lo < v.len() && v[lo] == '+' {
        assert(s.drop_first() =~= v@.skip(lo + 1));
        parse_digits(v, lo + 1, max)
    } else {
        parse_digits(v, lo, max)
    }
}

pub fn parse_uint_vec(v: &[char], max: u64) -> (r: Option<u64>)
    ensures
        r == (match parse_uint(v@, max as nat) {
            Some(n) => Some(n as u64),
            None => None::<u64>,
        }),
{
    assert(v@.skip(0) =~= v@);
    parse_uint_from(v, 0, max)
}

pub fn parse_u64_vec(v: &[char]) -> (r: Option<u64>)
    ensures
        r == (match parse_uint(v@, u64::MAX as nat) {
            Some(n) => Some(n as u64),
            None => None::<u64>,
        }),
{
    parse_uint_vec(v, u64::MAX)
}

fn parse_hex_digits(v: &[char], lo: usize, max: u64) -> (r: Option<u64>)
    requires
        lo <= v@.len(),
    ensures
        ({
            let d = v@.skip(lo as int);
            r == (if d.len() > 0 && all_hex(d) && hex_value(d) <= max {
                Some(hex_value(d) as u64)
            } else {
                None::<u64>
            })
        }),
{
    let ghost d = v@.skip(lo as int);
    if lo == v.len() {
        return None;
    }
    let mut acc: u128 = 0;
    let mut i = lo;
    while i < v.len()
        invariant
            lo <= i <= v@.len(),
            d == v@.skip(lo as int),
            all_hex(d.take(i - lo)),
            acc == hex_value(d.take(i - lo)),
            acc <= max,
        decreases v@.len() - i,
    {
        let c = v[i];
        let ghost pre = d.take(i - lo);
        let ghost nxt = d.take(i - lo + 1);
        assert(nxt.drop_last() =~= pre);
        assert(nxt.last() == c);
        if !is_hex_digit_exec(c) {
            assert(!is_hex_digit(d[i - lo]));
            return None;
        }
        acc = acc * 16 + hex_val_exec(c) as u128;
        assert(all_hex(nxt)) by {
            assert forall|j: int| 0 <= j < nxt.len() implies is_hex_digit(#[trigger] nxt[j]) by {
                if j < pre.len() {
                    assert(nxt[j] == pre[j]);
                }
            }
        }
        if acc > max as u128 {
            proof {
                lemma_hex_value_prefix(d, i - lo + 1);
            }
            return None;
        }
        i = i + 1;
    }
    assert(d.take(i - lo) =~= d);
    Some(acc as u64)
}

/// `from_str_radix(s, 16)` of an unsigned integer bounded by `max`.
pub fn parse_hex_vec(v: &[char], max: u64) -> (r: Option<u64>)
    ensures
        r == (match parse_hex(v@, max as nat) {
            Some(n) => Some(n as u64),
            None => None::<u64>,
        }),
{
    if v.len() > 0 && v[0] == '+' {
        assert(v@.drop_first() =~= v@.skip(1));
        parse_hex_digits(v, 1, max)
    } else {
        assert(v@.skip(0) =~= v@);
        parse_hex_digits(v, 0, max)
    }
}

/// Appends the decimal rendering of `n`.
pub fn push_dec(out: &mut Vec<char>, n: u64)
    ensures
        final(out)@ == old(out)@ + dec_repr(n as nat),
    decreases n,
{
    let ghost start = out@;
    if n >= 10 {
        push_dec(out, n / 10);
    }
    let d = (n % 10) as u32 + 48;
    assert(d < 128);
    out.push((d as u8) as char);
    proof {
        if n >= 10 {
            assert(start + dec_repr((n / 10) as nat).push(digit_char((n % 10) as nat)) =~= start
                + dec_repr(n as nat));
        } else {
            assert(start.push(digit_char(n as nat)) =~= start + dec_repr(n as nat));
        }
    }
}

pub fn dec_string(n: u64) -> (s: String)
    ensures
        s@ == dec_repr(n as nat),
{
    let mut v: Vec<char> = Vec::new();
    push_dec(&mut v, n);
    assert(v@ =~= dec_repr(n as nat));
    string_of(v.as_slice())
}


// ---------------------------------------------------------------------------
// Joining
// ---------------------------------------------------------------------------

pub open spec fn vecs_view(v: Seq<Vec<char>>) -> Seq<Seq<char>> {
    v.map_values(|x: Vec<char>| x@)
}

/// `join` of `ts` with separator `sep`.
pub open spec fn join_with(ts: Seq<Seq<char>>, sep: Seq<char>) -> Seq<char>
    decreases ts.len(),
{
    if ts.len() == 0 {
        seq![]
    } else if ts.len() == 1 {
        ts[0]
    } else {
        join_with(ts.drop_last(), sep) + sep + ts.last()
    }
}

pub fn join_tokens(ts: &Vec<Vec<char>>, sep: &str) -> (r: Vec<char>)
    ensures
        r@ == join_with(ts@.map_values(|t: Vec<char>| t@), sep@),
{
    let ghost tv = ts@.map_values(|t: Vec<char>| t@);
    let mut out: Vec<char> = Vec::new();
    for i in 0..ts.len()
        invariant
            tv == ts@.map_values(|t: Vec<char>| t@),
            out@ == join_with(tv.take(i as int), sep@),
    {
        let ghost pre = tv.take(i as int);
        let ghost nxt = tv.take(i + 1);
        assert(nxt.drop_last() =~= pre);
        assert(nxt.last() == ts@[i as int]@);
        if i > 0 {
            append_str(&mut out, sep);
        } else {
            assert(nxt.len() == 1);
        }
        append_chars(&mut out, ts[i].as_slice());
        assert(out@ =~= join_with(nxt, sep@));
    }
    assert(tv.take(ts@.len() as int) =~= tv);
    out
}


// ---------------------------------------------------------------------------
// Signed numbers
// ---------------------------------------------------------------------------

/// `str::parse::<i64>`: an optional sign, then decimal digits, in range.
pub open spec fn parse_i64_spec(s: Seq<char>) -> Option<i64> {
    if s.len() > 0 && s[0] == '-' {
        let d = s.drop_first();
        if d.len() > 0 && all_digits(d) && dec_value(d) <= 0x8000_0000_0000_0000 {
            Some((0 - dec_value(d)) as i64)
        } else {
            None
        }
    } else {
        match parse_uint(s, 0x7fff_ffff_ffff_ffff) {
            Some(n) => Some(n as i64),
            None => None,
        }
    }
}

pub fn parse_i64_vec(v: &[char]) -> (r: Option<i64>)
    ensures
        r == parse_i64_spec(v@),
{
    if v.len() > 0 && v[0] == '-' {
        assert(v@.drop_first() =~= v@.skip(1));
        match parse_digits(v, 1, 0x8000_0000_0000_0000) {
            Some(n) => {
                if n == 0x8000_0000_0000_0000 {
                    Some(i64::MIN)
                } else {
                    Some(0 - (n as i64))
                }
            },
            None => None,
        }
    } else {
        match parse_uint_vec(v, 0x7fff_ffff_ffff_ffff) {
            Some(n) => Some(n as i64),
            None => None,
        }
    }
}

} // verus!
