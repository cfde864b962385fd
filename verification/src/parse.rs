//! Byte-level line utilities: tab splitting, unsigned decimal parsing and
//! rendering, ASCII trimming, and byte-slice equality.
//!
//! Every executable function here is proved equal to a spec-level
//! definition over `Seq<u8>`; the rest of the crate states its contracts in
//! terms of these spec functions.

use vstd::prelude::*;
use vstd::string::*;

verus! {

/// Tab byte, the field separator of region and fragment lines.
pub open spec fn tab() -> u8 {
    9u8
}

/// ASCII decimal digit.
pub open spec fn is_digit(b: u8) -> bool {
    48 <= b <= 57
}

/// ASCII whitespace as trimmed from coordinate fields.
pub open spec fn is_space(b: u8) -> bool {
    b == 32 || (9 <= b && b <= 13)
}

/// A comment line starts with `#`.
pub open spec fn is_comment(line: Seq<u8>) -> bool {
    line.len() > 0 && line[0] == 35u8
}

/// Index of the first tab in `s`, or `s.len()` if there is none.
pub open spec fn first_tab(s: Seq<u8>) -> int
    decreases s.len(),
{
    if s.len() == 0 {
        0
    } else if s[0] == tab() {
        0
    } else {
        1 + first_tab(s.drop_first())
    }
}

pub proof fn lemma_first_tab_bounds(s: Seq<u8>)
    ensures
        0 <= first_tab(s) <= s.len(),
        forall|j: int| 0 <= j < first_tab(s) ==> s[j] != tab(),
        first_tab(s) < s.len() ==> s[first_tab(s)] == tab(),
    decreases s.len(),
{
    if s.len() > 0 && s[0] != tab() {
        lemma_first_tab_bounds(s.drop_first());
        assert forall|j: int| 0 <= j < first_tab(s) implies s[j] != tab() by {
            if j > 0 {
                assert(s.drop_first()[j - 1] != tab());
            }
        }
        if first_tab(s) < s.len() {
            assert(s.drop_first()[first_tab(s) - 1] == tab());
        }
    }
}

/// `first_tab` is determined by a tab-free prefix.
pub proof fn lemma_first_tab_is(s: Seq<u8>, t: int)
    requires
        0 <= t <= s.len(),
        forall|j: int| 0 <= j < t ==> s[j] != tab(),
        t < s.len() ==> s[t] == tab(),
    ensures
        first_tab(s) == t,
    decreases s.len(),
{
    if s.len() > 0 && s[0] != tab() {
        lemma_first_tab_is(s.drop_first(), t - 1);
    }
}

/// The fields of a line, split on every tab.
pub open spec fn split_spec(s: Seq<u8>) -> Seq<Seq<u8>>
    decreases s.len(),
{
    let i = first_tab(s);
    if i == s.len() {
        seq![s]
    } else if 0 <= i < s.len() {
        seq![s.take(i)] + split_spec(s.skip(i + 1))
    } else {
        seq![s]
    }
}

/// The views of a sequence of byte vectors.
pub open spec fn views(s: Seq<Vec<u8>>) -> Seq<Seq<u8>> {
    s.map_values(|v: Vec<u8>| v@)
}

/// Copy `line[from..to]` into a fresh vector.
pub fn subrange_vec(line: &[u8], from: usize, to: usize) -> (r: Vec<u8>)
    requires
        from <= to <= line@.len(),
    ensures
        r@ == line@.subrange(from as int, to as int),
{
    let mut out: Vec<u8> = Vec::new();
    let mut j: usize = from;
    while j < to
        invariant
            from <= j <= to <= line@.len(),
            out@ == line@.subrange(from as int, j as int),
        decreases to - j,
    {
        out.push(line[j]);
        j += 1;
        proof {
            assert(out@ =~= line@.subrange(from as int, j as int));
        }
    }
    out
}

/// Split a line into its tab-separated fields.
pub fn split_fields(line: &[u8]) -> (r: Vec<Vec<u8>>)
    ensures
        views(r@) == split_spec(line@),
{
    let n: usize = line.len();
    let mut fields: Vec<Vec<u8>> = Vec::new();
    let mut start: usize = 0;
    let mut i: usize = 0;
    proof {
        assert(line@.skip(0) =~= line@);
        assert(views(fields@) =~= Seq::<Seq<u8>>::empty());
        assert(split_spec(line@) =~= views(fields@) + split_spec(line@.skip(0)));
    }
    while i < n
        invariant
            0 <= start <= i <= n == line@.len(),
            forall|j: int| start <= j < i ==> line@[j] != tab(),
            split_spec(line@) =~= views(fields@) + split_spec(line@.skip(start as int)),
        decreases n - i,
    {
        if line[i] == 9u8 {
            let field = subrange_vec(line, start, i);
            proof {
                let rest = line@.skip(start as int);
                lemma_first_tab_is(rest, i - start);
                assert(rest.take(i - start) =~= line@.subrange(start as int, i as int));
                assert(rest.skip(i - start + 1) =~= line@.skip(i + 1));
            }
            fields.push(field);
            proof {
                assert(views(fields@) =~= views(fields@.drop_last()).push(field@));
            }
            start = i + 1;
        }
        i += 1;
    }
    let last = subrange_vec(line, start, n);
    proof {
        let rest = line@.skip(start as int);
        lemma_first_tab_is(rest, n - start);
        assert(rest.take(n - start) =~= rest);
        assert(rest =~= line@.subrange(start as int, n as int));
    }
    fields.push(last);
    proof {
        assert(views(fields@) =~= views(fields@.drop_last()).push(last@));
        assert(views(fields@) =~= split_spec(line@));
    }
    fields
}

/// Value of a nonempty run of decimal digits.
pub open spec fn digits_val(s: Seq<u8>) -> nat
    decreases s.len(),
{
    if s.len() == 0 {
        0
    } else {
        digits_val(s.drop_last()) * 10 + (s.last() - 48) as nat
    }
}

pub open spec fn all_digits(s: Seq<u8>) -> bool {
    forall|j: int| 0 <= j < s.len() ==> is_digit(#[trigger] s[j])
}

/// Strip one optional leading `+`, as integer parsing accepts.
pub open spec fn strip_plus(s: Seq<u8>) -> Seq<u8> {
    if s.len() > 0 && s[0] == 43u8 {
        s.drop_first()
    } else {
        s
    }
}

/// The unsigned decimal value of a field, if it is well formed.
pub open spec fn parse_uint_spec(s: Seq<u8>) -> Option<nat> {
    let t = strip_plus(s);
    if t.len() > 0 && all_digits(t) {
        Some(digits_val(t))
    } else {
        None
    }
}

pub open spec fn parse_u32_spec(s: Seq<u8>) -> Option<u32> {
    match parse_uint_spec(s) {
        Some(v) => if v <= u32::MAX { Some(v as u32) } else { None },
        None => None,
    }
}

pub open spec fn parse_u64_spec(s: Seq<u8>) -> Option<u64> {
    match parse_uint_spec(s) {
        Some(v) => if v <= u64::MAX { Some(v as u64) } else { None },
        None => None,
    }
}

/// A longer digit run never has a smaller value.
proof fn lemma_digits_val_prefix_le(s: Seq<u8>, j: int)
    requires
        0 <= j <= s.len(),
    ensures
        digits_val(s.take(j)) <= digits_val(s),
    decreases s.len() - j,
{
    if j < s.len() {
        lemma_digits_val_prefix_le(s, j + 1);
        assert(s.take(j + 1).drop_last() =~= s.take(j));
        assert(digits_val(s.take(j)) <= digits_val(s.take(j + 1)));
    } else {
        assert(s.take(j) =~= s);
    }
}

/// Parse a `u32` from an unsigned decimal field.
pub fn parse_u32(s: &[u8]) -> (r: Option<u32>)
    ensures
        r == parse_u32_spec(s@),
{
    let n: usize = s.len();
    let start: usize = if n > 0 && s[0] == 43u8 {
        1
    } else {
        0
    };
    let ghost t = strip_plus(s@);
    proof {
        assert(t =~= s@.skip(start as int));
    }
    if start == n {
        return None;
    }
    let mut val: u32 = 0;
    let mut j: usize = start;
    while j < n
        invariant
            start <= j <= n == s@.len(),
            start < n,
            t == strip_plus(s@),
            t == s@.skip(start as int),
            all_digits(t.take(j - start)),
            val == digits_val(t.take(j - start)),
        decreases n - j,
    {
        let b = s[j];
        if b < 48 || b > 57 {
            proof {
                assert(t[j - start] == s@[j as int]);
                assert(!is_digit(t[j - start]));
                assert(!all_digits(t));
                assert(parse_uint_spec(s@) is None);
            }
            return None;
        }
        let d: u32 = (b - 48) as u32;
        if val as u64 * 10 + d as u64 > u32::MAX as u64 {
            proof {
                assert(t.take(j - start + 1).last() == s@[j as int]);
                assert(t.take(j - start + 1).drop_last() =~= t.take(j - start));
                assert(digits_val(t.take(j - start + 1)) > u32::MAX);
                lemma_digits_val_prefix_le(t, j - start + 1);
                assert(all_digits(t) ==> digits_val(t) > u32::MAX);
                assert(parse_u32_spec(s@) is None);
            }
            return None;
        }
        val = val * 10 + d;
        j += 1;
        proof {
            assert(t.take(j - start).drop_last() =~= t.take(j - start - 1));
        }
    }
    proof {
        assert(t.take(n - start) =~= t);
    }
    Some(val)
}

/// Parse a `u64` from an unsigned decimal field.
pub fn parse_u64(s: &[u8]) -> (r: Option<u64>)
    ensures
        r == parse_u64_spec(s@),
{
    let n: usize = s.len();
    let start: usize = if n > 0 && s[0] == 43u8 {
        1
    } else {
        0
    };
    let ghost t = strip_plus(s@);
    proof {
        assert(t =~= s@.skip(start as int));
    }
    if start == n {
        return None;
    }
    let mut val: u64 = 0;
    let mut j: usize = start;
    while j < n
        invariant
            start <= j <= n == s@.len(),
            start < n,
            t == strip_plus(s@),
            t == s@.skip(start as int),
            all_digits(t.take(j - start)),
            val == digits_val(t.take(j - start)),
        decreases n - j,
    {
        let b = s[j];
        if b < 48 || b > 57 {
            assert(!is_digit(t[j - start]));
            return None;
        }
        let d: u64 = (b - 48) as u64;
        if val as u128 * 10 + d as u128 > u64::MAX as u128 {
            proof {
                assert(t.take(j - start + 1).drop_last() =~= t.take(j - start));
                assert(digits_val(t.take(j - start + 1)) > u64::MAX);
                lemma_digits_val_prefix_le(t, j - start + 1);
            }
            return None;
        }
        val = val * 10 + d;
        j += 1;
        proof {
            assert(t.take(j - start).drop_last() =~= t.take(j - start - 1));
        }
    }
    proof {
        assert(t.take(n - start) =~= t);
    }
    Some(val)
}

/// Decimal rendering of `n`, most significant digit first.
pub open spec fn dec_rep(n: nat) -> Seq<u8>
    decreases n,
{
    if n < 10 {
        seq![(48 + n) as u8]
    } else {
        dec_rep(n / 10).push((48 + n % 10) as u8)
    }
}

/// Append the decimal rendering of `n` to `out`.
pub fn push_dec_u64(out: &mut Vec<u8>, n: u64)
    ensures
        final(out)@ == old(out)@ + dec_rep(n as nat),
{
    let mut rev: Vec<u8> = Vec::new();
    let mut m: u64 = n;
    while m >= 10
        invariant
            dec_rep(n as nat) =~= dec_rep(m as nat) + rev@.reverse(),
        decreases m,
    {
        let d: u8 = (m % 10) as u8;
        rev.push(48 + d);
        proof {
            assert(rev@.reverse() =~= seq![(48 + (m as nat) % 10) as u8] + rev@.drop_last().reverse());
        }
        m = m / 10;
    }
    rev.push(48 + (m % 10) as u8);
    proof {
        assert(rev@.reverse() =~= seq![(48 + (m as nat) % 10) as u8] + rev@.drop_last().reverse());
        assert(dec_rep(m as nat) =~= seq![(48 + (m as nat)) as u8]);
        assert(dec_rep(n as nat) =~= rev@.reverse());
    }
    let k: usize = rev.len();
    let mut j: usize = k;
    while j > 0
        invariant
            0 <= j <= k == rev@.len(),
            out@ == old(out)@ + rev@.reverse().take(k - j),
        decreases j,
    {
        j -= 1;
        out.push(rev[j]);
        proof {
            assert(rev@.reverse()[k - j - 1] == rev@[j as int]);
            assert(out@ =~= old(out)@ + rev@.reverse().take(k - j));
        }
    }
    proof {
        assert(rev@.reverse().take(k as int) =~= rev@.reverse());
    }
}

/// Append the decimal rendering of `n` to `out`; the nonzero-entry count of
/// a matrix needs the wider type.
pub fn push_dec_u128(out: &mut Vec<u8>, n: u128)
    ensures
        final(out)@ == old(out)@ + dec_rep(n as nat),
{
    let mut rev: Vec<u8> = Vec::new();
    let mut m: u128 = n;
    while m >= 10
        invariant
            dec_rep(n as nat) =~= dec_rep(m as nat) + rev@.reverse(),
        decreases m,
    {
        let d: u8 = (m % 10) as u8;
        rev.push(48 + d);
        proof {
            assert(rev@.reverse() =~= seq![(48 + (m as nat) % 10) as u8] + rev@.drop_last().reverse());
        }
        m = m / 10;
    }
    rev.push(48 + (m % 10) as u8);
    proof {
        assert(rev@.reverse() =~= seq![(48 + (m as nat) % 10) as u8] + rev@.drop_last().reverse());
        assert(dec_rep(m as nat) =~= seq![(48 + (m as nat)) as u8]);
        assert(dec_rep(n as nat) =~= rev@.reverse());
    }
    let k: usize = rev.len();
    let mut j: usize = k;
    while j > 0
        invariant
            0 <= j <= k == rev@.len(),
            out@ == old(out)@ + rev@.reverse().take(k - j),
        decreases j,
    {
        j -= 1;
        out.push(rev[j]);
        proof {
            assert(rev@.reverse()[k - j - 1] == rev@[j as int]);
            assert(out@ =~= old(out)@ + rev@.reverse().take(k - j));
        }
    }
    proof {
        assert(rev@.reverse().take(k as int) =~= rev@.reverse());
    }
}

/// Append a string literal's bytes to `out`.
pub fn push_str_bytes(out: &mut Vec<u8>, s: &str)
    ensures
        final(out)@ == old(out)@ + s.spec_bytes(),
{
    let b = s.as_bytes();
    let n: usize = b.len();
    let mut i: usize = 0;
    while i < n
        invariant
            0 <= i <= n == b@.len(),
            b@ == s.spec_bytes(),
            out@ == old(out)@ + b@.take(i as int),
        decreases n - i,
    {
        out.push(b[i]);
        i += 1;
        proof {
            assert(out@ =~= old(out)@ + b@.take(i as int));
        }
    }
    proof {
        assert(b@.take(n as int) =~= b@);
    }
}

/// Count of leading whitespace bytes.
pub open spec fn trim_front(s: Seq<u8>) -> Seq<u8>
    decreases s.len(),
{
    if s.len() > 0 && is_space(s[0]) {
        trim_front(s.drop_first())
    } else {
        s
    }
}

pub open spec fn trim_back(s: Seq<u8>) -> Seq<u8>
    decreases s.len(),
{
    if s.len() > 0 && is_space(s.last()) {
        trim_back(s.drop_last())
    } else {
        s
    }
}

/// Whitespace-trimmed view of a coordinate field.
pub open spec fn trim_spec(s: Seq<u8>) -> Seq<u8> {
    trim_back(trim_front(s))
}

proof fn lemma_trim_front_skip(s: Seq<u8>, k: int)
    requires
        0 <= k <= s.len(),
        forall|j: int| 0 <= j < k ==> is_space(#[trigger] s[j]),
        k < s.len() ==> !is_space(s[k]),
    ensures
        trim_front(s) == s.skip(k),
    decreases s.len(),
{
    if s.len() > 0 && is_space(s[0]) {
        assert(k > 0) by {
            if k == 0 {
                assert(!is_space(s[0]));
            }
        }
        lemma_trim_front_skip(s.drop_first(), k - 1);
        assert(s.drop_first().skip(k - 1) =~= s.skip(k));
    } else {
        assert(k == 0);
        assert(s.skip(0) =~= s);
    }
}

proof fn lemma_trim_back_take(s: Seq<u8>, k: int)
    requires
        0 <= k <= s.len(),
        forall|j: int| k <= j < s.len() ==> is_space(#[trigger] s[j]),
        k > 0 ==> !is_space(s[k - 1]),
    ensures
        trim_back(s) == s.take(k),
    decreases s.len(),
{
    if s.len() > 0 && is_space(s.last()) {
        assert(k < s.len()) by {
            if k == s.len() {
                assert(!is_space(s[k - 1]));
            }
        }
        lemma_trim_back_take(s.drop_last(), k);
        assert(s.drop_last().take(k) =~= s.take(k));
    } else {
        assert(k == s.len()) by {
            if k < s.len() {
                assert(is_space(s[s.len() - 1]));
            }
        }
        assert(s.take(k) =~= s);
    }
}

/// Trim leading and trailing ASCII whitespace from a field.
pub fn trim(s: &[u8]) -> (r: Vec<u8>)
    ensures
        r@ == trim_spec(s@),
{
    let n: usize = s.len();
    let mut a: usize = 0;
    while a < n && (s[a] == 32 || (9 <= s[a] && s[a] <= 13))
        invariant
            0 <= a <= n == s@.len(),
            forall|j: int| 0 <= j < a ==> is_space(#[trigger] s@[j]),
        decreases n - a,
    {
        a += 1;
    }
    let mut b: usize = n;
    while b > a && (s[b - 1] == 32 || (9 <= s[b - 1] && s[b - 1] <= 13))
        invariant
            a <= b <= n == s@.len(),
            forall|j: int| 0 <= j < a ==> is_space(#[trigger] s@[j]),
            forall|j: int| b <= j < n ==> is_space(#[trigger] s@[j]),
        decreases b,
    {
        b -= 1;
    }
    proof {
        lemma_trim_front_skip(s@, a as int);
        let t = s@.skip(a as int);
        lemma_trim_back_take(t, b - a);
        assert(t.take(b - a) =~= s@.subrange(a as int, b as int));
    }
    subrange_vec(s, a, b)
}

/// Byte-for-byte equality of two slices.
pub fn bytes_eq(a: &[u8], b: &[u8]) -> (r: bool)
    ensures
        r == (a@ == b@),
{
    if a.len() != b.len() {
        assert(a@.len() != b@.len());
        return false;
    }
    let n: usize = a.len();
    let mut i: usize = 0;
    while i < n
        invariant
            0 <= i <= n,
            n == a@.len() == b@.len(),
            forall|j: int| 0 <= j < i ==> a@[j] == b@[j],
        decreases n - i,
    {
        if a[i] != b[i] {
            return false;
        }
        i += 1;
    }
    proof {
        assert(a@ =~= b@);
    }
    true
}

} // verus!
