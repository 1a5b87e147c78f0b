//! Samples of small strings to hold the automata against: all strings over a
//! few letters, their renamings, and the pairs worth comparing.

use vstd::prelude::*;
use vstd::utf8::encode_utf8;

verus! {

/// The code points of each string of a list.
pub open spec fn strings_of(v: Seq<String>) -> Seq<Seq<char>> {
    Seq::new(v.len(), |i: int| v[i]@)
}

/// The contents of each vector of a list.
pub open spec fn lists_of(v: Seq<Vec<char>>) -> Seq<Seq<char>> {
    Seq::new(v.len(), |i: int| v[i]@)
}

/// Every string of `prev` with `letter` at its end.
pub open spec fn extended(prev: Seq<Seq<char>>, letter: char) -> Seq<Seq<char>> {
    Seq::new(prev.len(), |i: int| prev[i].push(letter))
}

/// For each of the first `upto` letters in turn, every string of `prev` with
/// that letter at its end.
pub open spec fn grown(prev: Seq<Seq<char>>, alphabet: Seq<char>, upto: nat) -> Seq<Seq<char>>
    decreases upto,
{
    if upto == 0 {
        Seq::empty()
    } else {
        grown(prev, alphabet, (upto - 1) as nat) + extended(prev, alphabet[upto - 1])
    }
}

/// The strings of `len` letters, the last letter counting most in their order.
pub open spec fn level(alphabet: Seq<char>, len: nat) -> Seq<Seq<char>>
    decreases len,
{
    if len == 0 {
        seq![Seq::<char>::empty()]
    } else {
        grown(level(alphabet, (len - 1) as nat), alphabet, alphabet.len())
    }
}

/// The strings of one to `len` letters, the shorter ones first.
pub open spec fn all_up_to(alphabet: Seq<char>, len: nat) -> Seq<Seq<char>>
    decreases len,
{
    if len == 0 {
        Seq::empty()
    } else {
        all_up_to(alphabet, (len - 1) as nat) + level(alphabet, len)
    }
}

/// `String::push` of std: the string has the code point `c` added at its end.
#[verifier::external_body]
fn push_char(s: &mut String, c: char)
    ensures
        final(s)@ == old(s)@.push(c),
{
    s.push(c);
}

/// All strings over `alphabet` of one to `len` letters.
pub fn combinations(alphabet: &[char], len: usize) -> (result: Vec<String>)
    ensures
        strings_of(result@) == all_up_to(alphabet@, len as nat),
{
    let mut result: Vec<String> = Vec::new();
    let mut prev: Vec<String> = Vec::new();
    prev.push(String::new());
    assert(strings_of(prev@) =~= level(alphabet@, 0));
    assert(strings_of(result@) =~= all_up_to(alphabet@, 0));
    let letters = alphabet.len();
    let mut n: usize = 0;
    while n < len
        invariant
            n <= len,
            letters == alphabet@.len(),
            strings_of(prev@) == level(alphabet@, n as nat),
            strings_of(result@) == all_up_to(alphabet@, n as nat),
        decreases len - n,
    {
        let ghost before = strings_of(prev@);
        let mut next: Vec<String> = Vec::new();
        let mut a: usize = 0;
        assert(strings_of(next@) =~= grown(before, alphabet@, 0));
        while a < letters
            invariant
                a <= letters,
                letters == alphabet@.len(),
                before == strings_of(prev@),
                strings_of(next@) == grown(before, alphabet@, a as nat),
            decreases letters - a,
        {
            let letter = alphabet[a];
            let ghost done = strings_of(next@);
            let count = prev.len();
            let mut p: usize = 0;
            assert(strings_of(next@) =~= done + extended(before, letter).take(0));
            while p < count
                invariant
                    p <= count,
                    count == prev@.len(),
                    before == strings_of(prev@),
                    strings_of(next@) == done + extended(before, letter).take(p as int),
                decreases count - p,
            {
                let mut s = prev[p].clone();
                push_char(&mut s, letter);
                let ghost held = next@;
                next.push(s);
                proof {
                    let goal = done + extended(before, letter).take(p + 1);
                    assert(next@.len() == held.len() + 1);
                    assert(extended(before, letter).len() == count);
                    assert(strings_of(held).len() == held.len());
                    assert(strings_of(held).len() == done.len() + p);
                    assert(goal.len() == done.len() + p + 1);
                    assert(next@[held.len() as int]@ == before[p as int].push(letter));
                    assert forall|i: int| 0 <= i < goal.len() implies strings_of(next@)[i]
                        == goal[i] by {
                        if i < held.len() {
                            assert(next@[i] == held[i]);
                            assert(strings_of(held)[i] == (done + extended(before, letter).take(
                                p as int,
                            ))[i]);
                        }
                    }
                    assert(strings_of(next@) =~= goal);
                }
                p += 1;
            }
            assert(extended(before, letter).take(count as int) =~= extended(before, letter));
            a += 1;
        }
        let ghost all = strings_of(result@);
        let count = next.len();
        let mut q: usize = 0;
        assert(strings_of(result@) =~= all + strings_of(next@).take(0));
        while q < count
            invariant
                q <= count,
                count == next@.len(),
                strings_of(result@) == all + strings_of(next@).take(q as int),
            decreases count - q,
        {
            let ghost held = result@;
            result.push(next[q].clone());
            proof {
                let goal = all + strings_of(next@).take(q + 1);
                assert(result@.len() == held.len() + 1);
                assert(strings_of(next@).len() == count);
                assert(strings_of(held).len() == held.len());
                assert(strings_of(held).len() == all.len() + q);
                assert(goal.len() == all.len() + q + 1);
                assert(result@[held.len() as int]@ == strings_of(next@)[q as int]);
                assert forall|i: int| 0 <= i < goal.len() implies strings_of(result@)[i]
                    == goal[i] by {
                    if i < held.len() {
                        assert(result@[i] == held[i]);
                        assert(strings_of(held)[i] == (all + strings_of(next@).take(q as int))[i]);
                    }
                }
                assert(strings_of(result@) =~= goal);
            }
            q += 1;
        }
        assert(strings_of(next@).take(count as int) =~= strings_of(next@));
        prev = next;
        n += 1;
    }
    result
}

/// `s` with the items at `i` and `j` in each other's place.
pub open spec fn exchanged(s: Seq<char>, i: int, j: int) -> Seq<char> {
    s.update(i, s[j]).update(j, s[i])
}

/// What the first `rounds` rounds of arranging the first `n` items give: the
/// arrangements written so far, and the items as they then stand. A round
/// arranges the first `n - 1` items in every way and then brings another item
/// to the place `n - 1`.
pub open spec fn heap_rounds(cur: Seq<char>, n: nat, rounds: nat) -> (Seq<Seq<char>>, Seq<char>)
    decreases n, rounds,
{
    if rounds == 0 || n == 0 {
        (Seq::empty(), cur)
    } else {
        let before = heap_rounds(cur, n, (rounds - 1) as nat);
        let inner = heap(before.1, (n - 1) as nat);
        let i = rounds - 1;
        let from = if n % 2 == 0 {
            i
        } else {
            0
        };
        (before.0 + inner.0, exchanged(inner.1, from, n - 1))
    }
}

/// The arrangements of the first `n` items of `cur`, in the order of Heap's
/// method, and the items as they stand in the end.
pub open spec fn heap(cur: Seq<char>, n: nat) -> (Seq<Seq<char>>, Seq<char>)
    decreases n, n + 1,
{
    if n <= 1 {
        (seq![cur], cur)
    } else {
        let before = heap_rounds(cur, n, (n - 1) as nat);
        let last = heap(before.1, (n - 1) as nat);
        (before.0 + last.0, last.1)
    }
}

/// The number of arrangements of `n` items.
pub open spec fn factorial(n: nat) -> nat
    decreases n,
{
    if n <= 1 {
        1
    } else {
        n * factorial((n - 1) as nat)
    }
}

/// Heap's method writes `n!` arrangements, each of the length of the items,
/// and leaves the items at that length.
pub proof fn lemma_heap_count(cur: Seq<char>, n: nat)
    requires
        n <= cur.len(),
    ensures
        heap(cur, n).0.len() == factorial(n),
        heap(cur, n).1.len() == cur.len(),
        forall|i: int|
            0 <= i < heap(cur, n).0.len() ==> (#[trigger] heap(cur, n).0[i]).len() == cur.len(),
    decreases n, n + 1,
{
    if n > 1 {
        lemma_rounds_count(cur, n, (n - 1) as nat);
        let before = heap_rounds(cur, n, (n - 1) as nat);
        lemma_heap_count(before.1, (n - 1) as nat);
        assert(n * factorial((n - 1) as nat) == (n - 1) * factorial((n - 1) as nat) + factorial(
            (n - 1) as nat,
        )) by (nonlinear_arith);
    }
}

proof fn lemma_rounds_count(cur: Seq<char>, n: nat, rounds: nat)
    requires
        1 <= n <= cur.len(),
        rounds < n,
    ensures
        heap_rounds(cur, n, rounds).0.len() == rounds * factorial((n - 1) as nat),
        heap_rounds(cur, n, rounds).1.len() == cur.len(),
        forall|i: int|
            0 <= i < heap_rounds(cur, n, rounds).0.len() ==> (#[trigger] heap_rounds(
                cur,
                n,
                rounds,
            ).0[i]).len() == cur.len(),
    decreases n, rounds,
{
    if rounds > 0 {
        lemma_rounds_count(cur, n, (rounds - 1) as nat);
        let before = heap_rounds(cur, n, (rounds - 1) as nat);
        lemma_heap_count(before.1, (n - 1) as nat);
        assert(rounds * factorial((n - 1) as nat) == (rounds - 1) * factorial((n - 1) as nat)
            + factorial((n - 1) as nat)) by (nonlinear_arith);
    } else {
        assert(0 * factorial((n - 1) as nat) == 0) by (nonlinear_arith);
    }
}

/// Exchanging two items keeps the items.
proof fn lemma_exchanged(s: Seq<char>, i: int, j: int)
    requires
        0 <= i < s.len(),
        0 <= j < s.len(),
    ensures
        exchanged(s, i, j).to_multiset() == s.to_multiset(),
        exchanged(s, i, j).len() == s.len(),
        forall|q: int| 0 <= q < s.len() && q != i && q != j ==> exchanged(s, i, j)[q] == s[q],
{
    broadcast use vstd::multiset::group_multiset_axioms;

    let x = s[i];
    let y = s[j];
    let half = s.update(i, y);
    vstd::seq_lib::to_multiset_update(s, i, y);
    vstd::seq_lib::to_multiset_update(half, j, x);
    vstd::seq_lib::to_multiset_contains(s, x);
    assert(s.contains(x));
    assert(half[j] == y);
    let m = s.to_multiset();
    assert(m.count(x) > 0);
    assert forall|v: char| exchanged(s, i, j).to_multiset().count(v) == m.count(v) by {
        assert(exchanged(s, i, j).to_multiset() == m.insert(y).remove(x).insert(x).remove(y));
    }
    assert(exchanged(s, i, j).to_multiset() =~= m);
}

/// `other` holds the items of `cur`, and from the place `n` on in the places
/// that they have in `cur`.
pub open spec fn rearranged(cur: Seq<char>, other: Seq<char>, n: nat) -> bool {
    &&& other.len() == cur.len()
    &&& other.to_multiset() == cur.to_multiset()
    &&& forall|q: int| n <= q < cur.len() ==> other[q] == cur[q]
}

/// What Heap's method writes are arrangements: each holds the items of `cur`,
/// those past the first `n` in their places, and so do the items as they
/// stand in the end.
pub proof fn lemma_heap_rearranges(cur: Seq<char>, n: nat)
    requires
        n <= cur.len(),
    ensures
        rearranged(cur, heap(cur, n).1, n),
        forall|i: int|
            0 <= i < heap(cur, n).0.len() ==> rearranged(cur, #[trigger] heap(cur, n).0[i], n),
    decreases n, n + 1,
{
    if n > 1 {
        lemma_rounds_rearranges(cur, n, (n - 1) as nat);
        let before = heap_rounds(cur, n, (n - 1) as nat);
        lemma_heap_rearranges(before.1, (n - 1) as nat);
    }
}

proof fn lemma_rounds_rearranges(cur: Seq<char>, n: nat, rounds: nat)
    requires
        1 <= n <= cur.len(),
        rounds < n,
    ensures
        rearranged(cur, heap_rounds(cur, n, rounds).1, n),
        forall|i: int|
            0 <= i < heap_rounds(cur, n, rounds).0.len() ==> rearranged(
                cur,
                #[trigger] heap_rounds(cur, n, rounds).0[i],
                n,
            ),
    decreases n, rounds,
{
    if rounds > 0 {
        lemma_rounds_rearranges(cur, n, (rounds - 1) as nat);
        let before = heap_rounds(cur, n, (rounds - 1) as nat);
        lemma_heap_rearranges(before.1, (n - 1) as nat);
        let inner = heap(before.1, (n - 1) as nat);
        let from = if n % 2 == 0 {
            rounds - 1
        } else {
            0
        };
        lemma_exchanged(inner.1, from, n - 1);
    }
}

fn copy_chars(v: &Vec<char>) -> (r: Vec<char>)
    ensures
        r@ == v@,
{
    let mut r: Vec<char> = Vec::new();
    let n = v.len();
    let mut i: usize = 0;
    while i < n
        invariant
            n == v@.len(),
            i <= n,
            r@ == v@.take(i as int),
        decreases n - i,
    {
        r.push(v[i]);
        assert(v@.take(i + 1) =~= v@.take(i as int).push(v@[i as int]));
        i += 1;
    }
    assert(v@.take(n as int) =~= v@);
    r
}

/// Writes to `dest` every arrangement of the first `n` items of `current`, by
/// Heap's method.
pub fn generate_permutations(current: &mut Vec<char>, n: usize, dest: &mut Vec<Vec<char>>)
    requires
        1 <= n <= old(current)@.len(),
    ensures
        lists_of(final(dest)@) == lists_of(old(dest)@) + heap(old(current)@, n as nat).0,
        final(current)@ == heap(old(current)@, n as nat).1,
        heap(old(current)@, n as nat).0.len() == factorial(n as nat),
        forall|i: int|
            0 <= i < heap(old(current)@, n as nat).0.len() ==> rearranged(
                old(current)@,
                #[trigger] heap(old(current)@, n as nat).0[i],
                n as nat,
            ),
        rearranged(old(current)@, final(current)@, n as nat),
    decreases n,
{
    let ghost start = current@;
    let ghost had = lists_of(dest@);
    proof {
        lemma_heap_count(start, n as nat);
        lemma_heap_rearranges(start, n as nat);
    }
    if n == 1 {
        dest.push(copy_chars(current));
        assert(lists_of(dest@) =~= had + seq![start]);
    } else {
        let mut i: usize = 0;
        assert(lists_of(dest@) =~= had + heap_rounds(start, n as nat, 0).0);
        while i < n - 1
            invariant
                2 <= n <= start.len(),
                i <= n - 1,
                current@.len() == start.len(),
                lists_of(dest@) == had + heap_rounds(start, n as nat, i as nat).0,
                current@ == heap_rounds(start, n as nat, i as nat).1,
            decreases n - 1 - i,
        {
            let ghost held = lists_of(dest@);
            let ghost stood = current@;
            generate_permutations(current, n - 1, dest);
            proof {
                lemma_heap_count(stood, (n - 1) as nat);
            }
            let from = if n % 2 == 0 {
                i
            } else {
                0
            };
            let x = current[from];
            let y = current[n - 1];
            current.set(from, y);
            current.set(n - 1, x);
            proof {
                let r = heap_rounds(start, n as nat, (i + 1) as nat);
                let inner = heap(stood, (n - 1) as nat);
                assert(current@ =~= exchanged(inner.1, from as int, n - 1));
                assert(lists_of(dest@) =~= had + r.0);
            }
            i += 1;
        }
        generate_permutations(current, n - 1, dest);
        proof {
            let before = heap_rounds(start, n as nat, (n - 1) as nat);
            let last = heap(before.1, (n - 1) as nat);
            assert(lists_of(dest@) =~= had + (before.0 + last.0));
        }
    }
}

/// `text` with each byte taken as the place, counted from `a`, of a code
/// point of `mapping`.
pub open spec fn remapped(mapping: Seq<char>, bytes: Seq<u8>) -> Seq<char> {
    Seq::new(bytes.len(), |i: int| mapping[bytes[i] - 97])
}

/// Renames the letters of `text`: the letter `a` becomes `mapping[0]`, `b`
/// becomes `mapping[1]`, and so on.
pub fn remap(mapping: &[char], text: &String) -> (s: String)
    requires
        forall|i: int|
            0 <= i < encode_utf8(text@).len() ==> 97 <= (#[trigger] encode_utf8(text@)[i]) < 97
                + mapping@.len(),
    ensures
        s@ == remapped(mapping@, encode_utf8(text@)),
{
    let mut s = String::new();
    let bytes = text.as_str().as_bytes();
    let n = bytes.len();
    let mut j: usize = 0;
    assert(s@ =~= remapped(mapping@, bytes@).take(0));
    while j < n
        invariant
            n == bytes@.len(),
            bytes@ == encode_utf8(text@),
            j <= n,
            forall|i: int| 0 <= i < n ==> 97 <= (#[trigger] bytes@[i]) < 97 + mapping@.len(),
            s@ == remapped(mapping@, bytes@).take(j as int),
        decreases n - j,
    {
        let c = bytes[j];
        let i = c - 97;
        push_char(&mut s, mapping[i as usize]);
        assert(s@ =~= remapped(mapping@, bytes@).take(j + 1));
        j += 1;
    }
    assert(remapped(mapping@, bytes@).take(n as int) =~= remapped(mapping@, bytes@));
    s
}

/// Whether each letter first comes after `seen` letters, counted from `a`,
/// have come: the letters in the order of their first use are `a`, `b`, `c`
/// and so on.
pub open spec fn first_use_ordered(bytes: Seq<u8>, seen: nat) -> bool
    decreases bytes.len(),
{
    if bytes.len() == 0 {
        true
    } else {
        let place = bytes[0] - 97;
        if 0 <= place < seen {
            first_use_ordered(bytes.drop_first(), seen)
        } else if place == seen {
            first_use_ordered(bytes.drop_first(), seen + 1)
        } else {
            false
        }
    }
}

/// The strings whose letters are first used in the order of the alphabet.
pub open spec fn ordered_ones(strings: Seq<Seq<char>>, upto: nat) -> Seq<Seq<char>>
    decreases upto,
{
    if upto == 0 {
        Seq::empty()
    } else {
        let rest = ordered_ones(strings, (upto - 1) as nat);
        if first_use_ordered(encode_utf8(strings[upto - 1]), 0) {
            rest.push(strings[upto - 1])
        } else {
            rest
        }
    }
}

/// Whether `x` comes before `y`, or is `y`, in the order of strings: by the
/// first byte in which they differ, a prefix before what it begins.
pub open spec fn in_order(x: Seq<u8>, y: Seq<u8>) -> bool
    decreases x.len(),
{
    if x.len() == 0 {
        true
    } else if y.len() == 0 {
        false
    } else if x[0] != y[0] {
        x[0] < y[0]
    } else {
        in_order(x.drop_first(), y.drop_first())
    }
}

fn is_ordered(s: &String) -> (r: bool)
    ensures
        r == first_use_ordered(encode_utf8(s@), 0),
{
    let bytes = s.as_str().as_bytes();
    let n = bytes.len();
    let mut seen: usize = 0;
    let mut j: usize = 0;
    assert(bytes@.skip(0) =~= bytes@);
    while j < n
        invariant
            n == bytes@.len(),
            bytes@ == encode_utf8(s@),
            j <= n,
            seen <= j,
            first_use_ordered(bytes@, 0) == first_use_ordered(bytes@.skip(j as int), seen as nat),
        decreases n - j,
    {
        let c = bytes[j];
        assert(bytes@.skip(j as int)[0] == c);
        assert(bytes@.skip(j as int).drop_first() =~= bytes@.skip(j + 1));
        if c < 97 {
            return false;
        }
        let place = (c - 97) as usize;
        if place >= seen {
            if place != seen {
                return false;
            }
            seen += 1;
        }
        j += 1;
    }
    true
}

/// Tests the order of strings.
pub fn comes_first(x: &str, y: &str) -> (r: bool)
    ensures
        r == in_order(encode_utf8(x@), encode_utf8(y@)),
{
    let a = x.as_bytes();
    let b = y.as_bytes();
    let n = a.len();
    let m = b.len();
    let mut j: usize = 0;
    assert(a@.skip(0) =~= a@);
    assert(b@.skip(0) =~= b@);
    while j < n
        invariant
            n == a@.len(),
            m == b@.len(),
            a@ == encode_utf8(x@),
            b@ == encode_utf8(y@),
            j <= n,
            j <= m,
            in_order(a@, b@) == in_order(a@.skip(j as int), b@.skip(j as int)),
        decreases n - j,
    {
        if j >= m {
            return false;
        }
        assert(a@.skip(j as int)[0] == a@[j as int]);
        assert(b@.skip(j as int)[0] == b@[j as int]);
        assert(a@.skip(j as int).drop_first() =~= a@.skip(j + 1));
        assert(b@.skip(j as int).drop_first() =~= b@.skip(j + 1));
        if a[j] != b[j] {
            return a[j] < b[j];
        }
        j += 1;
    }
    true
}

/// `f` has run on strings that hold `x` and `y`: what it ensures holds of them.
pub open spec fn called<F: Fn(&str, &str)>(f: F, x: Seq<char>, y: Seq<char>) -> bool {
    exists|left: &str, right: &str|
        left@ == x && right@ == y && #[trigger] call_ensures(f, (left, right), ())
}

/// If the pair of the left string `i` and the right string `j` is in order,
/// `f` has run on it.
pub open spec fn served<F: Fn(&str, &str)>(
    f: F,
    lefts: Seq<Seq<char>>,
    rights: Seq<Seq<char>>,
    i: int,
    j: int,
) -> bool {
    in_order(encode_utf8(lefts[i]), encode_utf8(rights[j])) ==> called(f, lefts[i], rights[j])
}

/// The five letters of the samples.
pub open spec fn five_letters() -> Seq<char> {
    seq!['a', 'b', 'c', 'd', 'e']
}

/// Pairs of small strings: on the right every string, on the left one string
/// for each way of using letters, which stands for all its renamings.
pub struct TestSample {
    lefts: Vec<String>,
    rights: Vec<String>,
}

impl TestSample {
    /// The strings on the left.
    pub closed spec fn left_strings(&self) -> Seq<Seq<char>> {
        strings_of(self.lefts@)
    }

    /// The strings on the right.
    pub closed spec fn right_strings(&self) -> Seq<Seq<char>> {
        strings_of(self.rights@)
    }

    /// The sample of the strings of one to `num_chars` letters over `a` to
    /// `e`: all of them on the right, and on the left those whose letters are
    /// first used in the order of the alphabet.
    pub fn with_num_chars(num_chars: usize) -> (sample: TestSample)
        ensures
            sample.right_strings() == all_up_to(five_letters(), num_chars as nat),
            sample.left_strings() == ordered_ones(
                sample.right_strings(),
                sample.right_strings().len(),
            ),
    {
        let mut alphabet: Vec<char> = Vec::new();
        alphabet.push('a');
        alphabet.push('b');
        alphabet.push('c');
        alphabet.push('d');
        alphabet.push('e');
        assert(alphabet@ =~= five_letters());
        let strings = combinations(alphabet.as_slice(), num_chars);
        let mut sorted_strings: Vec<String> = Vec::new();
        let n = strings.len();
        let mut i: usize = 0;
        assert(strings_of(sorted_strings@) =~= ordered_ones(strings_of(strings@), 0));
        while i < n
            invariant
                n == strings@.len(),
                i <= n,
                strings_of(sorted_strings@) == ordered_ones(strings_of(strings@), i as nat),
            decreases n - i,
        {
            let ghost kept = strings_of(sorted_strings@);
            if is_ordered(&strings[i]) {
                sorted_strings.push(strings[i].clone());
                assert(strings_of(sorted_strings@) =~= kept.push(strings@[i as int]@));
            }
            i += 1;
        }
        TestSample { lefts: sorted_strings, rights: strings }
    }

    /// The strings on the left.
    pub fn lefts(&self) -> (v: &[String])
        ensures
            strings_of(v@) == self.left_strings(),
    {
        self.lefts.as_slice()
    }

    /// The strings on the right.
    pub fn rights(&self) -> (v: &[String])
        ensures
            strings_of(v@) == self.right_strings(),
    {
        self.rights.as_slice()
    }

    /// Calls `f` on each pair of a left and a right string of which the left
    /// one comes first in the order of strings, or is the right one.
    pub fn each<F: Fn(&str, &str)>(&self, f: F)
        requires
            forall|left: &str, right: &str| call_requires(f, (left, right)),
        ensures
            forall|i: int, j: int|
                0 <= i < self.left_strings().len() && 0 <= j < self.right_strings().len()
                    ==> #[trigger] served(f, self.left_strings(), self.right_strings(), i, j),
    {
        let n = self.lefts.len();
        let m = self.rights.len();
        let ghost lefts = strings_of(self.lefts@);
        let ghost rights = strings_of(self.rights@);
        let mut i: usize = 0;
        while i < n
            invariant
                n == self.lefts@.len(),
                m == self.rights@.len(),
                lefts == strings_of(self.lefts@),
                rights == strings_of(self.rights@),
                i <= n,
                forall|left: &str, right: &str| call_requires(f, (left, right)),
                forall|p: int, q: int|
                    0 <= p < i && 0 <= q < m ==> #[trigger] served(f, lefts, rights, p, q),
            decreases n - i,
        {
            let mut j: usize = 0;
            while j < m
                invariant
                    n == self.lefts@.len(),
                    m == self.rights@.len(),
                    lefts == strings_of(self.lefts@),
                    rights == strings_of(self.rights@),
                    i < n,
                    j <= m,
                    forall|left: &str, right: &str| call_requires(f, (left, right)),
                    forall|q: int| 0 <= q < j ==> #[trigger] served(f, lefts, rights, i as int, q),
                decreases m - j,
            {
                let left = self.lefts[i].as_str();
                let right = self.rights[j].as_str();
                if comes_first(left, right) {
                    f(left, right);
                    assert(call_ensures(f, (left, right), ()));
                    assert(called(f, lefts[i as int], rights[j as int]));
                }
                assert(served(f, lefts, rights, i as int, j as int));
                j += 1;
            }
            i += 1;
        }
    }
}

} // verus!
