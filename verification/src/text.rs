//! Character-sequence utilities: conversions between `String` and `Vec<char>`,
//! decimal digits, whitespace trimming, prefix/suffix tests, and splitting on a
//! separator pattern.
use vstd::prelude::*;

verus! {

// ---------- String <-> Vec<char> ----------

/// Relies on str::chars (via Iterator::collect): yields exactly the characters
/// of the string, in order.
#[verifier::external_body]
pub fn str_to_chars(s: &str) -> (r: Vec<char>)
    ensures
        r@ == s@,
{
    s.chars().collect()
}

/// Relies on String's FromIterator<char> impl (via Iterator::collect): the
/// collected string holds exactly the given characters, in order.
#[verifier::external_body]
pub fn chars_to_string(v: &Vec<char>) -> (r: String)
    ensures
        r@ == v@,
{
    v.iter().collect()
}

// ---------- small Vec<char> helpers ----------

/// Append all characters of `src` to `out`.
pub fn push_all(out: &mut Vec<char>, src: &Vec<char>)
    ensures
        final(out)@ == old(out)@ + src@,
{
    let mut i: usize = 0;
    while i < src.len()
        invariant
            i <= src.len(),
            out@ == old(out)@ + src@.take(i as int),
        decreases src.len() - i,
    {
        out.push(src[i]);
        proof {
            assert(src@.take(i + 1 as int) =~= src@.take(i as int).push(src@[i as int]));
        }
        i = i + 1;
    }
    proof {
        assert(src@.take(src@.len() as int) =~= src@);
    }
}

/// Copy the characters of `v` in positions `from..to`.
pub fn copy_range(v: &Vec<char>, from: usize, to: usize) -> (r: Vec<char>)
    requires
        from <= to <= v@.len(),
    ensures
        r@ == v@.subrange(from as int, to as int),
{
    let mut r: Vec<char> = Vec::new();
    let mut i: usize = from;
    while i < to
        invariant
            from <= i <= to <= v@.len(),
            r@ == v@.subrange(from as int, i as int),
        decreases to - i,
    {
        r.push(v[i]);
        proof {
            assert(v@.subrange(from as int, i + 1 as int) =~= v@.subrange(
                from as int,
                i as int,
            ).push(v@[i as int]));
        }
        i = i + 1;
    }
    r
}

/// Whether `v` starts with the pattern `p`.
pub fn starts_with(v: &Vec<char>, p: &Vec<char>) -> (r: bool)
    ensures
        r == (v@.len() >= p@.len() && v@.take(p@.len() as int) == p@),
{
    if v.len() < p.len() {
        return false;
    }
    let mut i: usize = 0;
    while i < p.len()
        invariant
            i <= p@.len() <= v@.len(),
            forall|j: int| 0 <= j < i ==> v@[j] == p@[j],
        decreases p.len() - i,
    {
        if v[i] != p[i] {
            assert(v@.take(p@.len() as int)[i as int] != p@[i as int]);
            return false;
        }
        i = i + 1;
    }
    proof {
        assert(v@.take(p@.len() as int) =~= p@);
    }
    true
}

/// Whether `v` ends with the pattern `p`.
pub fn ends_with(v: &Vec<char>, p: &Vec<char>) -> (r: bool)
    ensures
        r == (v@.len() >= p@.len() && v@.skip(v@.len() - p@.len()) == p@),
{
    if v.len() < p.len() {
        return false;
    }
    let base: usize = v.len() - p.len();
    let mut i: usize = 0;
    while i < p.len()
        invariant
            i <= p@.len() <= v@.len(),
            base == v@.len() - p@.len(),
            forall|j: int| 0 <= j < i ==> v@[base + j] == p@[j],
        decreases p.len() - i,
    {
        if v[base + i] != p[i] {
            assert(v@.skip(v@.len() - p@.len())[i as int] != p@[i as int]);
            return false;
        }
        i = i + 1;
    }
    proof {
        assert(v@.skip(v@.len() - p@.len()) =~= p@);
    }
    true
}

// ---------- whitespace trimming ----------

pub open spec fn is_space(c: char) -> bool {
    c == ' ' || c == '\t' || c == '\n' || c == '\r'
}

pub open spec fn trim_front(s: Seq<char>) -> Seq<char>
    decreases s.len(),
{
    if s.len() > 0 && is_space(s[0]) {
        trim_front(s.drop_first())
    } else {
        s
    }
}

pub open spec fn trim_back(s: Seq<char>) -> Seq<char>
    decreases s.len(),
{
    if s.len() > 0 && is_space(s.last()) {
        trim_back(s.drop_last())
    } else {
        s
    }
}

/// Whitespace-trimmed form of `s`.
pub open spec fn spec_trim(s: Seq<char>) -> Seq<char> {
    trim_back(trim_front(s))
}

fn is_space_exec(c: char) -> (r: bool)
    ensures
        r == is_space(c),
{
    c == ' ' || c == '\t' || c == '\n' || c == '\r'
}

/// Remove leading and trailing whitespace.
pub fn trim(v: &Vec<char>) -> (r: Vec<char>)
    ensures
        r@ == spec_trim(v@),
{
    proof {
        assert(v@.skip(0) =~= v@);
    }
    let mut a: usize = 0;
    while a < v.len() && is_space_exec(v[a])
        invariant
            a <= v@.len(),
            trim_front(v@) == trim_front(v@.skip(a as int)),
        decreases v.len() - a,
    {
        proof {
            assert(v@.skip(a as int).drop_first() =~= v@.skip(a + 1 as int));
        }
        a = a + 1;
    }
    proof {
        if a < v@.len() {
            assert(trim_front(v@.skip(a as int)) == v@.skip(a as int));
        } else {
            assert(v@.skip(a as int) =~= Seq::<char>::empty());
        }
    }
    let mut b: usize = v.len();
    while b > a && is_space_exec(v[b - 1])
        invariant
            a <= b <= v@.len(),
            trim_front(v@) == v@.skip(a as int),
            trim_back(v@.skip(a as int)) == trim_back(v@.subrange(a as int, b as int)),
        decreases b,
    {
        proof {
            assert(v@.subrange(a as int, b as int).drop_last() =~= v@.subrange(
                a as int,
                b - 1 as int,
            ));
            assert(v@.subrange(a as int, b as int).last() == v@[b - 1 as int]);
        }
        b = b - 1;
    }
    proof {
        if b > a {
            assert(v@.subrange(a as int, b as int).last() == v@[b - 1 as int]);
        } else {
            assert(v@.subrange(a as int, b as int) =~= Seq::<char>::empty());
        }
        assert(v@.skip(a as int) =~= v@.subrange(a as int, v@.len() as int));
    }
    copy_range(v, a, b)
}

// ---------- decimal digits ----------

pub open spec fn is_digit(c: char) -> bool {
    '0' <= c && c <= '9'
}

pub open spec fn digit_val(c: char) -> nat {
    (c as nat - 48) as nat
}

pub open spec fn all_digits(s: Seq<char>) -> bool {
    forall|i: int| 0 <= i < s.len() ==> is_digit(#[trigger] s[i])
}

/// Numeric value of a digit string, most significant digit first.
pub open spec fn digits_val(s: Seq<char>) -> nat
    decreases s.len(),
{
    if s.len() == 0 {
        0
    } else {
        digits_val(s.drop_last()) * 10 + digit_val(s.last())
    }
}

/// Decimal representation of `n`, without leading zeros (except for zero itself).
pub open spec fn dec_rep(n: nat) -> Seq<char>
    decreases n,
{
    if n < 10 {
        seq![dec_digit_char(n)]
    } else {
        dec_rep(n / 10).push(dec_digit_char(n % 10))
    }
}

pub open spec fn dec_digit_char(d: nat) -> char {
    if d == 0 {
        '0'
    } else if d == 1 {
        '1'
    } else if d == 2 {
        '2'
    } else if d == 3 {
        '3'
    } else if d == 4 {
        '4'
    } else if d == 5 {
        '5'
    } else if d == 6 {
        '6'
    } else if d == 7 {
        '7'
    } else if d == 8 {
        '8'
    } else {
        '9'
    }
}

proof fn lemma_dec_digit(d: nat)
    requires
        d < 10,
    ensures
        is_digit(dec_digit_char(d)),
        digit_val(dec_digit_char(d)) == d,
{
}

/// The decimal representation is all digits and evaluates back to `n`.
pub proof fn lemma_dec_rep_val(n: nat)
    ensures
        dec_rep(n).len() >= 1,
        all_digits(dec_rep(n)),
        digits_val(dec_rep(n)) == n,
    decreases n,
{
    if n < 10 {
        lemma_dec_digit(n);
        assert(dec_rep(n).drop_last() =~= Seq::<char>::empty());
        assert(dec_rep(n).last() == dec_digit_char(n));
        assert(digits_val(Seq::<char>::empty()) == 0);
        assert(digits_val(dec_rep(n)) == 0 * 10 + digit_val(dec_digit_char(n)));
    } else {
        lemma_dec_rep_val(n / 10);
        lemma_dec_digit(n % 10);
        assert(dec_rep(n).drop_last() =~= dec_rep(n / 10));
        assert(dec_rep(n).last() == dec_digit_char(n % 10));
        assert(digits_val(dec_rep(n)) == digits_val(dec_rep(n / 10)) * 10 + digit_val(
            dec_digit_char(n % 10),
        ));
        assert(digits_val(dec_rep(n)) == (n / 10) * 10 + (n % 10));
        vstd::arithmetic::div_mod::lemma_fundamental_div_mod(n as int, 10);
        assert forall|i: int| 0 <= i < dec_rep(n).len() implies is_digit(#[trigger] dec_rep(n)[i]) by {
            if i < dec_rep(n / 10).len() {
                assert(dec_rep(n)[i] == dec_rep(n / 10)[i]);
            }
        }
    }
}

fn dec_digit_char_exec(d: u64) -> (c: char)
    requires
        d < 10,
    ensures
        c == dec_digit_char(d as nat),
{
    if d == 0 {
        '0'
    } else if d == 1 {
        '1'
    } else if d == 2 {
        '2'
    } else if d == 3 {
        '3'
    } else if d == 4 {
        '4'
    } else if d == 5 {
        '5'
    } else if d == 6 {
        '6'
    } else if d == 7 {
        '7'
    } else if d == 8 {
        '8'
    } else {
        '9'
    }
}

/// Append the decimal representation of `n` to `out`.
pub fn push_dec(n: u64, out: &mut Vec<char>)
    ensures
        final(out)@ == old(out)@ + dec_rep(n as nat),
    decreases n,
{
    if n < 10 {
        out.push(dec_digit_char_exec(n));
        proof {
            assert(old(out)@ + dec_rep(n as nat) =~= old(out)@.push(dec_digit_char(n as nat)));
        }
    } else {
        push_dec(n / 10, out);
        out.push(dec_digit_char_exec(n % 10));
        proof {
            assert(old(out)@ + dec_rep(n as nat) =~= (old(out)@ + dec_rep(n as nat / 10)).push(
                dec_digit_char(n as nat % 10),
            ));
        }
    }
}

/// Append the decimal representation of `n` to `out` (wide counter form).
pub fn push_dec_u128(n: u128, out: &mut Vec<char>)
    ensures
        final(out)@ == old(out)@ + dec_rep(n as nat),
    decreases n,
{
    if n < 10 {
        out.push(dec_digit_char_exec(n as u64));
        proof {
            assert(old(out)@ + dec_rep(n as nat) =~= old(out)@.push(dec_digit_char(n as nat)));
        }
    } else {
        push_dec_u128(n / 10, out);
        out.push(dec_digit_char_exec((n % 10) as u64));
        proof {
            assert(old(out)@ + dec_rep(n as nat) =~= (old(out)@ + dec_rep(n as nat / 10)).push(
                dec_digit_char(n as nat % 10),
            ));
        }
    }
}

fn is_digit_exec(c: char) -> (r: bool)
    ensures
        r == is_digit(c),
{
    '0' <= c && c <= '9'
}

fn digit_val_exec(c: char) -> (r: u64)
    requires
        is_digit(c),
    ensures
        r == digit_val(c),
{
    (c as u32 - 48) as u64
}

/// Values of prefixes never exceed the value of the whole digit string.
proof fn lemma_digits_val_prefix_le(s: Seq<char>, i: int)
    requires
        0 <= i <= s.len(),
    ensures
        digits_val(s.take(i)) <= digits_val(s),
    decreases s.len() - i,
{
    if i < s.len() {
        lemma_digits_val_prefix_le(s, i + 1);
        assert(s.take(i + 1).drop_last() =~= s.take(i));
        assert(s.take(s.len() as int) =~= s);
    } else {
        assert(s.take(i) =~= s);
    }
}

/// Parse the decimal value of `v[from..to]`. Returns `None` unless the range is
/// a nonempty run of digits whose value fits in `u64`.
pub fn parse_digits(v: &Vec<char>, from: usize, to: usize) -> (r: Option<u64>)
    requires
        from <= to <= v@.len(),
    ensures
        ({
            let s = v@.subrange(from as int, to as int);
            match r {
                Some(n) => from < to && all_digits(s) && n == digits_val(s),
                None => !(from < to && all_digits(s) && digits_val(s) <= u64::MAX),
            }
        }),
{
    let ghost s = v@.subrange(from as int, to as int);
    if from == to {
        return None;
    }
    let mut acc: u64 = 0;
    let mut i: usize = from;
    while i < to
        invariant
            from <= i <= to <= v@.len(),
            s == v@.subrange(from as int, to as int),
            all_digits(s.take(i - from)),
            acc == digits_val(s.take(i - from)),
        decreases to - i,
    {
        let c = v[i];
        if !is_digit_exec(c) {
            assert(s[i - from] == c);
            return None;
        }
        let d = digit_val_exec(c);
        proof {
            assert(s.take(i + 1 - from).drop_last() =~= s.take(i - from));
            assert(s.take(i + 1 - from).last() == c);
        }
        let m = match acc.checked_mul(10) {
            Some(m) => m,
            None => {
                proof {
                    lemma_digits_val_prefix_le(s, i + 1 - from as int);
                }
                return None;
            },
        };
        let a = match m.checked_add(d) {
            Some(a) => a,
            None => {
                proof {
                    lemma_digits_val_prefix_le(s, i + 1 - from as int);
                }
                return None;
            },
        };
        acc = a;
        i = i + 1;
    }
    proof {
        assert(s.take(to - from as int) =~= s);
    }
    Some(acc)
}

// ---------- last occurrence of a character ----------

/// Index of the last occurrence of `c` in `s`, if any.
pub open spec fn rfind(s: Seq<char>, c: char) -> Option<int>
    decreases s.len(),
{
    if s.len() == 0 {
        None
    } else if s.last() == c {
        Some(s.len() - 1)
    } else {
        rfind(s.drop_last(), c)
    }
}

/// Find the last occurrence of `c` in `v`.
pub fn rfind_exec(v: &Vec<char>, c: char) -> (r: Option<usize>)
    ensures
        match r {
            Some(i) => i < v@.len() && rfind(v@, c) == Some(i as int),
            None => rfind(v@, c) is None,
        },
{
    let mut k: usize = v.len();
    proof {
        assert(v@.take(k as int) =~= v@);
    }
    while k > 0
        invariant
            k <= v@.len(),
            rfind(v@, c) == rfind(v@.take(k as int), c),
        decreases k,
    {
        if v[k - 1] == c {
            proof {
                assert(v@.take(k as int).last() == v@[k - 1]);
            }
            return Some(k - 1);
        }
        proof {
            assert(v@.take(k as int).drop_last() =~= v@.take(k - 1));
            assert(v@.take(k as int).last() == v@[k - 1]);
        }
        k = k - 1;
    }
    proof {
        assert(v@.take(0) =~= Seq::<char>::empty());
    }
    None
}

// ---------- occurrence of a pattern, and splitting ----------

/// The pattern `p` occurs in `s` at position `i`.
pub open spec fn occurs_at(s: Seq<char>, p: Seq<char>, i: int) -> bool {
    0 <= i && i + p.len() <= s.len() && s.subrange(i, i + p.len() as int) == p
}

/// No occurrence of `p` anywhere in `s`.
pub open spec fn pat_free(s: Seq<char>, p: Seq<char>) -> bool {
    forall|i: int| !occurs_at(s, p, i)
}

/// Find the first occurrence of `p` in `v` at or after position `from`.
pub fn find_pat(v: &Vec<char>, p: &Vec<char>, from: usize) -> (r: Option<usize>)
    requires
        from <= v@.len(),
        p@.len() >= 1,
    ensures
        match r {
            Some(i) => from <= i && occurs_at(v@, p@, i as int) && forall|j: int|
                from <= j < i ==> !occurs_at(v@, p@, j),
            None => forall|j: int| from <= j ==> !occurs_at(v@, p@, j),
        },
{
    if v.len() < p.len() {
        return None;
    }
    let last: usize = v.len() - p.len();
    if from > last {
        return None;
    }
    let mut i: usize = from;
    while i <= last
        invariant
            from <= i <= last + 1,
            forall|j: int| from <= j < i ==> !occurs_at(v@, p@, j),
        decreases last + 1 - i,
    {
        let mut k: usize = 0;
        let mut matched: bool = true;
        while k < p.len()
            invariant
                i <= last,
                k <= p@.len(),
                matched ==> forall|j: int| 0 <= j < k ==> v@[i + j] == p@[j],
                !matched ==> !occurs_at(v@, p@, i as int),
            decreases p.len() - k,
        {
            if v[i + k] != p[k] {
                proof {
                    if occurs_at(v@, p@, i as int) {
                        assert(v@.subrange(i as int, i + p@.len() as int)[k as int] == p@[k as int]);
                    }
                }
                matched = false;
                k = p.len();
            } else {
                k = k + 1;
            }
        }
        if matched {
            proof {
                assert(v@.subrange(i as int, i + p@.len() as int) =~= p@);
            }
            return Some(i);
        }
        i = i + 1;
    }
    proof {
        assert forall|j: int| from <= j implies !occurs_at(v@, p@, j) by {
            if j < i {
            } else {
                assert(j > last);
            }
        }
    }
    None
}

/// Index of the leftmost occurrence of `p` in `s`, if any.
pub open spec fn first_occurrence(s: Seq<char>, p: Seq<char>) -> Option<int>
    decreases s.len(),
{
    if p.len() == 0 || s.len() < p.len() {
        None
    } else if s.take(p.len() as int) == p {
        Some(0)
    } else {
        match first_occurrence(s.drop_first(), p) {
            Some(i) => Some(i + 1),
            None => None,
        }
    }
}

/// A position that matches, with none before it, is the first occurrence.
pub proof fn lemma_first_occurrence_found(s: Seq<char>, p: Seq<char>, i: int)
    requires
        p.len() >= 1,
        occurs_at(s, p, i),
        forall|j: int| 0 <= j < i ==> !occurs_at(s, p, j),
    ensures
        first_occurrence(s, p) == Some(i),
    decreases s.len(),
{
    if i == 0 {
        assert(s.take(p.len() as int) =~= s.subrange(0, p.len() as int));
    } else {
        assert(!occurs_at(s, p, 0));
        if s.take(p.len() as int) == p {
            assert(s.subrange(0, p.len() as int) =~= s.take(p.len() as int));
            assert(occurs_at(s, p, 0));
        }
        assert(occurs_at(s.drop_first(), p, i - 1)) by {
            assert(s.drop_first().subrange(i - 1, i - 1 + p.len() as int) =~= s.subrange(
                i,
                i + p.len() as int,
            ));
        }
        assert forall|j: int| 0 <= j < i - 1 implies !occurs_at(s.drop_first(), p, j) by {
            if occurs_at(s.drop_first(), p, j) {
                assert(s.subrange(j + 1, j + 1 + p.len() as int) =~= s.drop_first().subrange(
                    j,
                    j + p.len() as int,
                ));
                assert(occurs_at(s, p, j + 1));
            }
        }
        lemma_first_occurrence_found(s.drop_first(), p, i - 1);
    }
}

/// Without any occurrence there is no first occurrence.
pub proof fn lemma_first_occurrence_none(s: Seq<char>, p: Seq<char>)
    requires
        p.len() >= 1,
        pat_free(s, p),
    ensures
        first_occurrence(s, p) is None,
    decreases s.len(),
{
    if s.len() >= p.len() {
        if s.take(p.len() as int) == p {
            assert(s.subrange(0, p.len() as int) =~= s.take(p.len() as int));
            assert(occurs_at(s, p, 0));
        }
        assert forall|j: int| !occurs_at(s.drop_first(), p, j) by {
            if 0 <= j && occurs_at(s.drop_first(), p, j) {
                assert(s.subrange(j + 1, j + 1 + p.len() as int) =~= s.drop_first().subrange(
                    j,
                    j + p.len() as int,
                ));
                assert(occurs_at(s, p, j + 1));
            }
        }
        lemma_first_occurrence_none(s.drop_first(), p);
    }
}

/// Split `s` on the separator `p`, accumulating the current field in `acc`.
pub open spec fn split_h(s: Seq<char>, p: Seq<char>, acc: Seq<char>) -> Seq<Seq<char>>
    decreases s.len(),
{
    if p.len() == 0 || s.len() < p.len() {
        seq![acc + s]
    } else if s.take(p.len() as int) == p {
        seq![acc] + split_h(s.skip(p.len() as int), p, Seq::empty())
    } else {
        split_h(s.drop_first(), p, acc.push(s[0]))
    }
}

/// The fields of `s` split on the separator `p` (leftmost-first occurrences).
pub open spec fn spec_split(s: Seq<char>, p: Seq<char>) -> Seq<Seq<char>> {
    split_h(s, p, Seq::empty())
}

/// If `p` does not occur in `s`, the split is the single field `acc + s`.
pub proof fn lemma_split_no_occurrence(s: Seq<char>, p: Seq<char>, acc: Seq<char>)
    requires
        p.len() >= 1,
        pat_free(s, p),
    ensures
        split_h(s, p, acc) == seq![acc + s],
    decreases s.len(),
{
    if s.len() < p.len() {
    } else if s.take(p.len() as int) == p {
        assert(s.subrange(0, p.len() as int) =~= s.take(p.len() as int));
        assert(occurs_at(s, p, 0));
    } else {
        assert forall|i: int| !occurs_at(s.drop_first(), p, i) by {
            if occurs_at(s.drop_first(), p, i) {
                assert(s.subrange(i + 1, i + 1 + p.len() as int) =~= s.drop_first().subrange(
                    i,
                    i + p.len() as int,
                ));
                assert(occurs_at(s, p, i + 1));
            }
        }
        lemma_split_no_occurrence(s.drop_first(), p, acc.push(s[0]));
        assert(acc.push(s[0]) + s.drop_first() =~= acc + s);
    }
}

/// If the first occurrence of `p` in `s` is at `k`, the split takes `s[..k]`
/// as the first field and continues after the separator.
pub proof fn lemma_split_at_first(s: Seq<char>, p: Seq<char>, acc: Seq<char>, k: int)
    requires
        p.len() >= 1,
        occurs_at(s, p, k),
        forall|j: int| j < k ==> !occurs_at(s, p, j),
    ensures
        split_h(s, p, acc) == seq![acc + s.take(k)] + split_h(
            s.skip(k + p.len()),
            p,
            Seq::empty(),
        ),
    decreases s.len(),
{
    if k == 0 {
        assert(s.take(p.len() as int) =~= s.subrange(0, p.len() as int));
        assert(acc + s.take(0) =~= acc);
    } else {
        assert(!occurs_at(s, p, 0));
        if s.take(p.len() as int) == p {
            assert(s.subrange(0, p.len() as int) =~= s.take(p.len() as int));
            assert(occurs_at(s, p, 0));
        }
        assert(occurs_at(s.drop_first(), p, k - 1)) by {
            assert(s.drop_first().subrange(k - 1, k - 1 + p.len() as int) =~= s.subrange(
                k,
                k + p.len() as int,
            ));
        }
        assert forall|j: int| j < k - 1 implies !occurs_at(s.drop_first(), p, j) by {
            if occurs_at(s.drop_first(), p, j) {
                assert(s.subrange(j + 1, j + 1 + p.len() as int) =~= s.drop_first().subrange(
                    j,
                    j + p.len() as int,
                ));
                assert(occurs_at(s, p, j + 1));
            }
        }
        lemma_split_at_first(s.drop_first(), p, acc.push(s[0]), k - 1);
        assert(acc.push(s[0]) + s.drop_first().take(k - 1) =~= acc + s.take(k));
        assert(s.drop_first().skip(k - 1 + p.len()) =~= s.skip(k + p.len()));
    }
}

/// Split `v` on the separator pattern `p`.
pub fn split_pat(v: &Vec<char>, p: &Vec<char>) -> (r: Vec<Vec<char>>)
    requires
        p@.len() >= 1,
    ensures
        r.deep_view() == spec_split(v@, p@),
{
    let mut r: Vec<Vec<char>> = Vec::new();
    let mut pos: usize = 0;
    let vlen: usize = v.len();
    proof {
        assert(r.deep_view() =~= Seq::<Seq<char>>::empty());
        assert(v@.skip(0) =~= v@);
        assert(Seq::<Seq<char>>::empty() + spec_split(v@, p@) =~= spec_split(v@, p@));
    }
    loop
        invariant
            pos <= v@.len(),
            spec_split(v@, p@) == r.deep_view() + split_h(v@.skip(pos as int), p@, Seq::empty()),
        decreases v@.len() - pos,
    {
        let ghost r0 = r.deep_view();
        match find_pat(v, p, pos) {
            Some(i) => {
                let field = copy_range(v, pos, i);
                let ghost fv = field@;
                proof {
                    let rem = v@.skip(pos as int);
                    assert(occurs_at(rem, p@, i - pos)) by {
                        assert(rem.subrange(i - pos, i - pos + p@.len() as int) =~= v@.subrange(
                            i as int,
                            i + p@.len() as int,
                        ));
                    }
                    assert forall|j: int| j < i - pos implies !occurs_at(rem, p@, j) by {
                        if 0 <= j && occurs_at(rem, p@, j) {
                            assert(v@.subrange(pos + j, pos + j + p@.len() as int) =~= rem.subrange(
                                j,
                                j + p@.len() as int,
                            ));
                            assert(occurs_at(v@, p@, pos + j));
                        }
                    }
                    lemma_split_at_first(rem, p@, Seq::empty(), i - pos);
                    assert(Seq::<char>::empty() + rem.take(i - pos) =~= fv);
                    assert(rem.skip(i - pos + p@.len()) =~= v@.skip(i + p@.len()));
                }
                proof {
                    assert(i + p@.len() <= vlen);
                }
                r.push(field);
                pos = i + p.len();
                proof {
                    assert(r.deep_view() =~~= r0.push(fv));
                    assert(r0.push(fv) + split_h(v@.skip(pos as int), p@, Seq::empty()) =~= r0 + (
                    seq![fv] + split_h(v@.skip(pos as int), p@, Seq::empty())));
                }
            },
            None => {
                let field = copy_range(v, pos, v.len());
                proof {
                    let rem = v@.skip(pos as int);
                    assert forall|j: int| !occurs_at(rem, p@, j) by {
                        if 0 <= j && occurs_at(rem, p@, j) {
                            assert(v@.subrange(pos + j, pos + j + p@.len() as int) =~= rem.subrange(
                                j,
                                j + p@.len() as int,
                            ));
                            assert(occurs_at(v@, p@, pos + j));
                        }
                    }
                    lemma_split_no_occurrence(rem, p@, Seq::empty());
                    assert(Seq::<char>::empty() + rem =~= v@.subrange(pos as int, v@.len() as int));
                }
                r.push(field);
                proof {
                    assert(r.deep_view() =~~= r0.push(v@.subrange(pos as int, v@.len() as int)));
                    assert(r0 + split_h(v@.skip(pos as int), p@, Seq::empty()) =~= r.deep_view());
                }
                return r;
            },
        }
    }
}

} // verus!
