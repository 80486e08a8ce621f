use vstd::prelude::*;
use vstd::utf8::encode_utf8;

verus! {

/// A distance function between two values of type `T`.
pub trait Distance<T> {
    /// The distance that `distance` computes, as a mathematical integer.
    spec fn spec_distance(&self, a: T, b: T) -> int;

    fn distance(&self, a: &T, b: &T) -> (r: isize)
        ensures
            r as int == self.spec_distance(*a, *b),
    ;
}

/// Whether `d` is a metric: non-negative, zero from a value to itself,
/// symmetric, and obeying the triangle inequality.
pub open spec fn is_metric<T, D: Distance<T>>(d: D) -> bool {
    &&& forall|a: T, b: T| #[trigger] d.spec_distance(a, b) >= 0
    &&& forall|a: T| #[trigger] d.spec_distance(a, a) == 0
    &&& forall|a: T, b: T| #[trigger] d.spec_distance(a, b) == d.spec_distance(b, a)
    &&& forall|a: T, b: T, c: T|
        #![trigger d.spec_distance(a, b), d.spec_distance(b, c)]
        d.spec_distance(a, c) <= d.spec_distance(a, b) + d.spec_distance(b, c)
}

/// Number of set bits among the `i` lowest bits of `x`.
pub open spec fn ones_below(x: u64, i: nat) -> nat
    decreases i,
{
    if i == 0 {
        0
    } else {
        ones_below(x, (i - 1) as nat) + ((x >> ((i - 1) as u64)) & 1) as nat
    }
}

/// Number of set bits of `x`.
pub open spec fn ones(x: u64) -> nat {
    ones_below(x, 64)
}

/// Counts the set bits of `x`.
pub fn count_ones(x: u64) -> (r: u32)
    ensures
        r as nat == ones(x),
        r <= 64,
{
    let mut i: u64 = 0;
    let mut n: u32 = 0;
    while i < 64
        invariant
            i <= 64,
            n as nat == ones_below(x, i as nat),
            n <= i,
        decreases 64 - i,
    {
        let b = (x >> i) & 1;
        assert(b <= 1) by (bit_vector)
            requires
                b == (x >> i) & 1,
        ;
        n = n + b as u32;
        i = i + 1;
    }
    n
}

/// Number of bit positions at which `a` and `b` differ.
pub open spec fn hamming(a: u64, b: u64) -> nat {
    ones(a ^ b)
}

proof fn lemma_ones_below_zero(i: nat)
    requires
        i <= 64,
    ensures
        ones_below(0, i) == 0,
    decreases i,
{
    if i > 0 {
        lemma_ones_below_zero((i - 1) as nat);
        let k = (i - 1) as u64;
        assert((0u64 >> k) & 1 == 0) by (bit_vector);
    }
}

proof fn lemma_ones_below_triangle(a: u64, b: u64, c: u64, i: nat)
    requires
        i <= 64,
    ensures
        ones_below(a ^ c, i) <= ones_below(a ^ b, i) + ones_below(b ^ c, i),
    decreases i,
{
    if i > 0 {
        lemma_ones_below_triangle(a, b, c, (i - 1) as nat);
        let k = (i - 1) as u64;
        assert(((a ^ c) >> k) & 1 <= (((a ^ b) >> k) & 1) + (((b ^ c) >> k) & 1)) by (bit_vector);
    }
}

/// The Hamming distance on 64-bit words is a metric.
pub proof fn lemma_hamming_metric(a: u64, b: u64, c: u64)
    ensures
        hamming(a, a) == 0,
        hamming(a, b) == hamming(b, a),
        hamming(a, c) <= hamming(a, b) + hamming(b, c),
{
    assert(a ^ a == 0) by (bit_vector);
    assert(a ^ b == b ^ a) by (bit_vector);
    lemma_ones_below_zero(64);
    lemma_ones_below_triangle(a, b, c, 64);
}

/// The Hamming distance is a metric on each integer type it measures.
pub proof fn lemma_hamming_is_metric()
    ensures
        is_metric::<u64, HammingDistance>(HammingDistance),
        is_metric::<i64, HammingDistance>(HammingDistance),
        is_metric::<u32, HammingDistance>(HammingDistance),
        is_metric::<i32, HammingDistance>(HammingDistance),
        is_metric::<u16, HammingDistance>(HammingDistance),
        is_metric::<i16, HammingDistance>(HammingDistance),
        is_metric::<u8, HammingDistance>(HammingDistance),
        is_metric::<i8, HammingDistance>(HammingDistance),
        is_metric::<usize, HammingDistance>(HammingDistance),
        is_metric::<isize, HammingDistance>(HammingDistance),
{
    assert forall|a: u64, b: u64, c: u64| #[trigger] hamming(a, b) + #[trigger] hamming(b, c) >= 0 && hamming(a, c)
        <= hamming(a, b) + hamming(b, c) && hamming(a, a) == 0 && hamming(a, b) == hamming(b, a) by {
        lemma_hamming_metric(a, b, c);
    }
    assert forall|a: u64| #[trigger] hamming(a, a) == 0 by {
        lemma_hamming_metric(a, a, a);
    }
    assert forall|a: u64, b: u64| #[trigger] hamming(a, b) == hamming(b, a) by {
        lemma_hamming_metric(a, b, b);
    }
}

/// Edit distance is zero from a string to itself and does not depend on the
/// order of its arguments.
pub proof fn lemma_levenshtein_identity_symmetry(a: &str, b: &str)
    ensures
        LevenshteinDistance.spec_distance(a, a) == 0,
        LevenshteinDistance.spec_distance(a, b) == LevenshteinDistance.spec_distance(b, a),
{
    lemma_lev_identity(a@);
    lemma_lev_symmetric(a@, b@);
}

/// Bitwise Hamming distance: the number of bits in which two integers differ.
pub struct HammingDistance;

impl Distance<u64> for HammingDistance {
    open spec fn spec_distance(&self, a: u64, b: u64) -> int {
        hamming(a, b) as int
    }

    fn distance(&self, a: &u64, b: &u64) -> (r: isize) {
        count_ones(*a ^ *b) as isize
    }
}

impl Distance<i64> for HammingDistance {
    open spec fn spec_distance(&self, a: i64, b: i64) -> int {
        hamming(a as u64, b as u64) as int
    }

    fn distance(&self, a: &i64, b: &i64) -> (r: isize) {
        count_ones((*a as u64) ^ (*b as u64)) as isize
    }
}

impl Distance<u32> for HammingDistance {
    open spec fn spec_distance(&self, a: u32, b: u32) -> int {
        hamming(a as u64, b as u64) as int
    }

    fn distance(&self, a: &u32, b: &u32) -> (r: isize) {
        count_ones((*a as u64) ^ (*b as u64)) as isize
    }
}

impl Distance<u16> for HammingDistance {
    open spec fn spec_distance(&self, a: u16, b: u16) -> int {
        hamming(a as u64, b as u64) as int
    }

    fn distance(&self, a: &u16, b: &u16) -> (r: isize) {
        count_ones((*a as u64) ^ (*b as u64)) as isize
    }
}

impl Distance<i16> for HammingDistance {
    open spec fn spec_distance(&self, a: i16, b: i16) -> int {
        hamming(a as u16 as u64, b as u16 as u64) as int
    }

    fn distance(&self, a: &i16, b: &i16) -> (r: isize) {
        count_ones((*a as u16 as u64) ^ (*b as u16 as u64)) as isize
    }
}

impl Distance<u8> for HammingDistance {
    open spec fn spec_distance(&self, a: u8, b: u8) -> int {
        hamming(a as u64, b as u64) as int
    }

    fn distance(&self, a: &u8, b: &u8) -> (r: isize) {
        count_ones((*a as u64) ^ (*b as u64)) as isize
    }
}

impl Distance<i8> for HammingDistance {
    open spec fn spec_distance(&self, a: i8, b: i8) -> int {
        hamming(a as u8 as u64, b as u8 as u64) as int
    }

    fn distance(&self, a: &i8, b: &i8) -> (r: isize) {
        count_ones((*a as u8 as u64) ^ (*b as u8 as u64)) as isize
    }
}

impl Distance<usize> for HammingDistance {
    open spec fn spec_distance(&self, a: usize, b: usize) -> int {
        hamming(a as u64, b as u64) as int
    }

    fn distance(&self, a: &usize, b: &usize) -> (r: isize) {
        count_ones((*a as u64) ^ (*b as u64)) as isize
    }
}

impl Distance<isize> for HammingDistance {
    open spec fn spec_distance(&self, a: isize, b: isize) -> int {
        hamming(a as u64, b as u64) as int
    }

    fn distance(&self, a: &isize, b: &isize) -> (r: isize) {
        count_ones((*a as u64) ^ (*b as u64)) as isize
    }
}

impl Distance<i32> for HammingDistance {
    open spec fn spec_distance(&self, a: i32, b: i32) -> int {
        hamming(a as u32 as u64, b as u32 as u64) as int
    }

    fn distance(&self, a: &i32, b: &i32) -> (r: isize) {
        count_ones((*a as u32 as u64) ^ (*b as u32 as u64)) as isize
    }
}

/// The smallest of three numbers.
pub open spec fn min3(x: nat, y: nat, z: nat) -> nat {
    if x <= y && x <= z {
        x
    } else if y <= z {
        y
    } else {
        z
    }
}

/// Edit distance: the fewest single-character insertions, deletions or
/// substitutions that turn `a` into `b`.
pub open spec fn lev(a: Seq<char>, b: Seq<char>) -> nat
    decreases a.len() + b.len(),
{
    if a.len() == 0 {
        b.len()
    } else if b.len() == 0 {
        a.len()
    } else {
        min3(
            lev(a.drop_last(), b) + 1,
            lev(a, b.drop_last()) + 1,
            lev(a.drop_last(), b.drop_last()) + if a.last() == b.last() {
                0nat
            } else {
                1nat
            },
        )
    }
}

/// The edit distance of a sequence to itself is zero.
pub proof fn lemma_lev_identity(a: Seq<char>)
    ensures
        lev(a, a) == 0,
    decreases a.len(),
{
    if a.len() > 0 {
        lemma_lev_identity(a.drop_last());
    }
}

/// The edit distance does not depend on the order of its arguments.
pub proof fn lemma_lev_symmetric(a: Seq<char>, b: Seq<char>)
    ensures
        lev(a, b) == lev(b, a),
    decreases a.len() + b.len(),
{
    if a.len() > 0 && b.len() > 0 {
        lemma_lev_symmetric(a.drop_last(), b);
        lemma_lev_symmetric(a, b.drop_last());
        lemma_lev_symmetric(a.drop_last(), b.drop_last());
    }
}

/// The edit distance is at most the length of the longer sequence.
pub proof fn lemma_lev_bound(a: Seq<char>, b: Seq<char>)
    ensures
        lev(a, b) <= if a.len() >= b.len() {
            a.len()
        } else {
            b.len()
        },
    decreases a.len() + b.len(),
{
    if a.len() > 0 && b.len() > 0 {
        lemma_lev_bound(a.drop_last(), b.drop_last());
    }
}

/// The edit distance is at least the difference of the lengths.
proof fn lemma_lev_lower(a: Seq<char>, b: Seq<char>)
    ensures
        lev(a, b) + b.len() >= a.len(),
        lev(a, b) + a.len() >= b.len(),
    decreases a.len() + b.len(),
{
    if a.len() > 0 && b.len() > 0 {
        lemma_lev_lower(a.drop_last(), b);
        lemma_lev_lower(a, b.drop_last());
        lemma_lev_lower(a.drop_last(), b.drop_last());
    }
}

/// The edit distance obeys the triangle inequality.
pub proof fn lemma_lev_triangle(a: Seq<char>, b: Seq<char>, c: Seq<char>)
    ensures
        lev(a, c) <= lev(a, b) + lev(b, c),
    decreases a.len() + b.len() + c.len(),
{
    if a.len() == 0 {
        lemma_lev_lower(b, c);
    } else if c.len() == 0 {
        lemma_lev_lower(a, b);
    } else if b.len() == 0 {
        lemma_lev_bound(a, c);
    } else {
        let a1 = a.drop_last();
        let b1 = b.drop_last();
        let c1 = c.drop_last();
        lemma_lev_triangle(a1, b, c);
        lemma_lev_triangle(a, b, c1);
        lemma_lev_triangle(a, b1, c);
        lemma_lev_triangle(a, b1, c1);
        lemma_lev_triangle(a1, b1, c);
        lemma_lev_triangle(a1, b1, c1);
    }
}

/// Edit distance, saturated at `isize::MAX`, is a metric on strings.
pub proof fn lemma_levenshtein_is_metric()
    ensures
        is_metric::<&str, LevenshteinDistance>(LevenshteinDistance),
        is_metric::<String, LevenshteinDistance>(LevenshteinDistance),
{
    assert forall|a: Seq<char>, b: Seq<char>, c: Seq<char>|
        #![trigger lev(a, b), lev(b, c)]
        min_isize(lev(a, c)) <= min_isize(lev(a, b)) + min_isize(lev(b, c)) by {
        lemma_lev_triangle(a, b, c);
    }
    assert forall|a: Seq<char>| #[trigger] lev(a, a) == 0 by {
        lemma_lev_identity(a);
    }
    assert forall|a: Seq<char>, b: Seq<char>| #[trigger] lev(a, b) == lev(b, a) by {
        lemma_lev_symmetric(a, b);
    }
    assert forall|a: &str, b: &str, c: &str|
        #![trigger LevenshteinDistance.spec_distance(a, b), LevenshteinDistance.spec_distance(b, c)]
        LevenshteinDistance.spec_distance(a, c) <= LevenshteinDistance.spec_distance(a, b)
            + LevenshteinDistance.spec_distance(b, c) by {
        assert(min_isize(lev(a@, c@)) <= min_isize(lev(a@, b@)) + min_isize(lev(b@, c@)));
    }
    assert forall|a: String, b: String, c: String|
        #![trigger LevenshteinDistance.spec_distance(a, b), LevenshteinDistance.spec_distance(b, c)]
        LevenshteinDistance.spec_distance(a, c) <= LevenshteinDistance.spec_distance(a, b)
            + LevenshteinDistance.spec_distance(b, c) by {
        assert(min_isize(lev(a@, c@)) <= min_isize(lev(a@, b@)) + min_isize(lev(b@, c@)));
    }
}

/// The characters of `s`, in order.
fn chars_of(s: &str) -> (r: Vec<char>)
    ensures
        r@ == s@,
{
    let n = s.unicode_len();
    let mut r: Vec<char> = Vec::new();
    let mut i: usize = 0;
    while i < n
        invariant
            n == s@.len(),
            i <= n,
            r@ == s@.subrange(0, i as int),
        decreases n - i,
    {
        r.push(s.get_char(i));
        i = i + 1;
    }
    assert(r@ =~= s@);
    r
}

fn same_chars(a: &Vec<char>, b: &Vec<char>) -> (r: bool)
    ensures
        r == (a@ == b@),
{
    if a.len() != b.len() {
        return false;
    }
    let mut i: usize = 0;
    while i < a.len()
        invariant
            a@.len() == b@.len(),
            i <= a@.len(),
            a@.subrange(0, i as int) =~= b@.subrange(0, i as int),
        decreases a@.len() - i,
    {
        if a[i] != b[i] {
            return false;
        }
        i = i + 1;
    }
    assert(a@ =~= a@.subrange(0, i as int));
    assert(b@ =~= b@.subrange(0, i as int));
    true
}

/// Edit distance of two character sequences, in a single row of memory.
fn lev_chars(a: &Vec<char>, b: &Vec<char>) -> (r: usize)
    ensures
        r as nat == lev(a@, b@),
{
    if same_chars(a, b) {
        proof {
            lemma_lev_identity(a@);
        }
        return 0;
    }
    let a_len = a.len();
    let b_len = b.len();
    if a_len == 0 {
        return b_len;
    }
    if b_len == 0 {
        return a_len;
    }
    let ghost sa = a@;
    let ghost sb = b@;
    // cache[i] holds the distance of the first i + 1 characters of `a`
    // to the part of `b` seen so far.
    let mut cache: Vec<usize> = Vec::new();
    let mut i: usize = 0;
    while i < a_len
        invariant
            a_len == sa.len(),
            i <= a_len,
            cache@.len() == i,
            forall|k: int| 0 <= k < i ==> #[trigger] cache@[k] == k + 1,
        decreases a_len - i,
    {
        cache.push(i + 1);
        i = i + 1;
    }
    proof {
        assert forall|k: int| 0 <= k < a_len implies #[trigger] cache@[k] == lev(
            sa.subrange(0, k + 1),
            sb.subrange(0, 0),
        ) by {}
    }
    let mut res: usize = 0;
    let mut ib: usize = 0;
    while ib < b_len
        invariant
            sa == a@,
            sb == b@,
            a_len == sa.len(),
            b_len == sb.len(),
            a_len > 0,
            ib <= b_len,
            cache@.len() == a_len,
            forall|k: int|
                0 <= k < a_len ==> #[trigger] cache@[k] == lev(
                    sa.subrange(0, k + 1),
                    sb.subrange(0, ib as int),
                ),
            ib > 0 ==> res == cache@[a_len - 1],
        decreases b_len - ib,
    {
        let cb = b[ib];
        res = ib + 1;
        let mut a_dist: usize = ib;
        let mut ia: usize = 0;
        proof {
            assert(sa.subrange(0, 0).len() == 0);
        }
        while ia < a_len
            invariant
                sa == a@,
                sb == b@,
                a_len == sa.len(),
                b_len == sb.len(),
                ib < b_len,
                cb == sb[ib as int],
                ia <= a_len,
                cache@.len() == a_len,
                forall|k: int|
                    0 <= k < ia ==> #[trigger] cache@[k] == lev(
                        sa.subrange(0, k + 1),
                        sb.subrange(0, ib + 1),
                    ),
                forall|k: int|
                    ia <= k < a_len ==> #[trigger] cache@[k] == lev(
                        sa.subrange(0, k + 1),
                        sb.subrange(0, ib as int),
                    ),
                a_dist == lev(sa.subrange(0, ia as int), sb.subrange(0, ib as int)),
                res == lev(sa.subrange(0, ia as int), sb.subrange(0, ib + 1)),
            decreases a_len - ia,
        {
            proof {
                lemma_lev_bound(sa.subrange(0, ia as int), sb.subrange(0, ib as int));
            }
            let ca = a[ia];
            let b_dist = if ca == cb {
                a_dist
            } else {
                a_dist + 1
            };
            a_dist = cache[ia];
            res = if a_dist > res {
                if b_dist > res {
                    res + 1
                } else {
                    b_dist
                }
            } else if b_dist > a_dist {
                a_dist + 1
            } else {
                b_dist
            };
            proof {
                let x = sa.subrange(0, ia + 1);
                let y = sb.subrange(0, ib + 1);
                assert(x.drop_last() =~= sa.subrange(0, ia as int));
                assert(y.drop_last() =~= sb.subrange(0, ib as int));
                assert(x.last() == ca);
                assert(y.last() == cb);
            }
            cache.set(ia, res);
            ia = ia + 1;
        }
        ib = ib + 1;
    }
    proof {
        assert(sa.subrange(0, a_len as int) =~= sa);
        assert(sb.subrange(0, b_len as int) =~= sb);
    }
    res
}

/// Edit distance of `a` and `b` counted in characters, saturated at `isize::MAX`.
pub fn levenshtein_distance(a: &str, b: &str) -> (r: isize)
    ensures
        r as int == min_isize(lev(a@, b@)),
{
    let ca = chars_of(a);
    let cb = chars_of(b);
    let d = lev_chars(&ca, &cb);
    if d > isize::MAX as usize {
        isize::MAX
    } else {
        d as isize
    }
}

/// `d`, or `isize::MAX` where `d` is larger.
pub open spec fn min_isize(d: nat) -> int {
    if d > isize::MAX {
        isize::MAX as int
    } else {
        d as int
    }
}

/// Edit distance between strings, counted in characters.
pub struct LevenshteinDistance;

impl<'a> Distance<&'a str> for LevenshteinDistance {
    open spec fn spec_distance(&self, a: &'a str, b: &'a str) -> int {
        min_isize(lev(a@, b@))
    }

    fn distance(&self, a: &&'a str, b: &&'a str) -> (r: isize) {
        levenshtein_distance(*a, *b)
    }
}

impl Distance<String> for LevenshteinDistance {
    open spec fn spec_distance(&self, a: String, b: String) -> int {
        min_isize(lev(a@, b@))
    }

    fn distance(&self, a: &String, b: &String) -> (r: isize) {
        levenshtein_distance(a.as_str(), b.as_str())
    }
}

/// Number of positions below `k` at which `a` and `b` hold different characters.
pub open spec fn mismatches_below(a: Seq<char>, b: Seq<char>, k: nat) -> nat
    decreases k,
{
    if k == 0 {
        0
    } else {
        mismatches_below(a, b, (k - 1) as nat) + if a[k - 1] != b[k - 1] {
            1nat
        } else {
            0nat
        }
    }
}

/// The shorter of two lengths.
pub open spec fn min_len(a: Seq<char>, b: Seq<char>) -> nat {
    if a.len() <= b.len() {
        a.len()
    } else {
        b.len()
    }
}

/// Difference in byte length, plus the number of aligned characters that
/// differ.
pub open spec fn aligned(a: Seq<char>, b: Seq<char>) -> nat {
    let la = encode_utf8(a).len() as usize;
    let lb = encode_utf8(b).len() as usize;
    (if la >= lb {
        la - lb
    } else {
        lb - la
    }) as nat + mismatches_below(a, b, min_len(a, b))
}

/// A rough measure between strings: the difference in their byte lengths
/// plus the number of aligned characters that differ. It is cheap, but need
/// not obey the triangle inequality.
pub struct AlignedDistance;

/// The aligned measure of `a` and `b`, saturated at `isize::MAX`.
pub fn aligned_distance(a: &str, b: &str) -> (r: isize)
    ensures
        r as int == min_isize(aligned(a@, b@)),
{
    let la = a.len();
    let lb = b.len();
    let diff: usize = if la >= lb {
        la - lb
    } else {
        lb - la
    };
    let ca = chars_of(a);
    let cb = chars_of(b);
    let n = if ca.len() <= cb.len() {
        ca.len()
    } else {
        cb.len()
    };
    let mut mm: usize = 0;
    let mut i: usize = 0;
    while i < n
        invariant
            ca@ == a@,
            cb@ == b@,
            n == min_len(a@, b@),
            i <= n,
            mm as nat == mismatches_below(a@, b@, i as nat),
            mm <= i,
        decreases n - i,
    {
        if ca[i] != cb[i] {
            mm = mm + 1;
        }
        i = i + 1;
    }
    let total: u128 = diff as u128 + mm as u128;
    if total > isize::MAX as u128 {
        isize::MAX
    } else {
        total as isize
    }
}

impl Distance<String> for AlignedDistance {
    open spec fn spec_distance(&self, a: String, b: String) -> int {
        min_isize(aligned(a@, b@))
    }

    fn distance(&self, a: &String, b: &String) -> (r: isize) {
        aligned_distance(a.as_str(), b.as_str())
    }
}

} // verus!
