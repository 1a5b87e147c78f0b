//! The letters of a query with their UTF-8 encodings, and the byte strings
//! that begin an encoding without ending it.

use crate::utf8::encoding;
use vstd::prelude::*;

verus! {

/// The byte strings that a list of vectors holds.
pub open spec fn bytes_of(list: Seq<Vec<u8>>) -> Seq<Seq<u8>> {
    Seq::new(list.len(), |i: int| list[i]@)
}

/// `w` begins `e` and is neither empty nor all of it.
pub open spec fn proper_prefix(w: Seq<u8>, e: Seq<u8>) -> bool {
    1 <= w.len() < e.len() && w == e.take(w.len() as int)
}

/// The letters are the code points of the query, each once, with their
/// encodings beside them.
pub open spec fn letters_ok(query: Seq<char>, letters: Seq<char>, letter_bytes: Seq<Seq<u8>>) -> bool {
    &&& letters.no_duplicates()
    &&& letter_bytes.len() == letters.len()
    &&& forall|i: int| 0 <= i < letters.len() ==> #[trigger] letter_bytes[i] == encoding(letters[i])
    &&& forall|j: int| 0 <= j < query.len() ==> letters.contains(#[trigger] query[j])
    &&& forall|i: int| 0 <= i < letters.len() ==> query.contains(#[trigger] letters[i])
}

/// `w` is a proper prefix of one of the encodings.
pub open spec fn grounded(w: Seq<u8>, letter_bytes: Seq<Seq<u8>>) -> bool {
    exists|i: int| 0 <= i < letter_bytes.len() && proper_prefix(w, #[trigger] letter_bytes[i])
}

/// The prefixes are the empty string first and then, each once, the proper
/// prefixes of the letters' encodings.
pub open spec fn nodes_ok(letter_bytes: Seq<Seq<u8>>, prefixes: Seq<Seq<u8>>) -> bool {
    &&& prefixes.len() >= 1
    &&& prefixes[0].len() == 0
    &&& prefixes.no_duplicates()
    &&& forall|t: int| 1 <= t < prefixes.len() ==> grounded(#[trigger] prefixes[t], letter_bytes)
    &&& forall|i: int, m: int|
        0 <= i < letter_bytes.len() && 1 <= m < letter_bytes[i].len() ==> prefixes.contains(
            #[trigger] letter_bytes[i].take(m),
        )
}

/// Whether both hold the same bytes.
pub fn same_bytes(x: &Vec<u8>, y: &Vec<u8>) -> (r: bool)
    ensures
        r == (x@ == y@),
{
    let n = x.len();
    if y.len() != n {
        return false;
    }
    let mut i: usize = 0;
    while i < n
        invariant
            n == x@.len(),
            n == y@.len(),
            i <= n,
            forall|j: int| 0 <= j < i ==> x@[j] == y@[j],
        decreases n - i,
    {
        if x[i] != y[i] {
            return false;
        }
        i += 1;
    }
    assert(x@ =~= y@);
    true
}

/// An independent copy.
pub fn copy_bytes(x: &Vec<u8>) -> (r: Vec<u8>)
    ensures
        r@ == x@,
{
    let mut r: Vec<u8> = Vec::new();
    let n = x.len();
    let mut i: usize = 0;
    while i < n
        invariant
            n == x@.len(),
            i <= n,
            r@ == x@.take(i as int),
        decreases n - i,
    {
        r.push(x[i]);
        assert(x@.take(i + 1) =~= x@.take(i as int).push(x@[i as int]));
        i += 1;
    }
    assert(x@.take(n as int) =~= x@);
    r
}

/// The place of the byte string `w` in `list`, if it is there.
pub fn find(list: &Vec<Vec<u8>>, w: &Vec<u8>) -> (r: Option<usize>)
    ensures
        match r {
            Some(i) => i < list@.len() && bytes_of(list@)[i as int] == w@,
            None => !bytes_of(list@).contains(w@),
        },
{
    let n = list.len();
    let mut i: usize = 0;
    while i < n
        invariant
            n == list@.len(),
            i <= n,
            forall|j: int| 0 <= j < i ==> (#[trigger] bytes_of(list@)[j]) != w@,
        decreases n - i,
    {
        if same_bytes(&list[i], w) {
            return Some(i);
        }
        i += 1;
    }
    None
}

fn holds(letters: &Vec<char>, c: char) -> (r: bool)
    ensures
        r == letters@.contains(c),
{
    let n = letters.len();
    let mut i: usize = 0;
    while i < n
        invariant
            n == letters@.len(),
            i <= n,
            forall|j: int| 0 <= j < i ==> letters@[j] != c,
        decreases n - i,
    {
        if letters[i] == c {
            return true;
        }
        i += 1;
    }
    false
}

/// The distinct code points of a query, in the order of their first
/// occurrence, each with its encoding.
pub fn alphabet_of(query: &Vec<char>, encodings: &Vec<Vec<u8>>) -> (r: (Vec<char>, Vec<Vec<u8>>))
    requires
        encodings@.len() == query@.len(),
        forall|i: int| 0 <= i < query@.len() ==> (#[trigger] encodings@[i])@ == encoding(query@[i]),
    ensures
        letters_ok(query@, r.0@, bytes_of(r.1@)),
{
    let mut letters: Vec<char> = Vec::new();
    let mut letter_bytes: Vec<Vec<u8>> = Vec::new();
    let n = query.len();
    let mut j: usize = 0;
    while j < n
        invariant
            n == query@.len(),
            encodings@.len() == n,
            forall|i: int| 0 <= i < n ==> (#[trigger] encodings@[i])@ == encoding(query@[i]),
            j <= n,
            letters@.no_duplicates(),
            letter_bytes@.len() == letters@.len(),
            forall|i: int|
                0 <= i < letters@.len() ==> #[trigger] bytes_of(letter_bytes@)[i] == encoding(
                    letters@[i],
                ),
            forall|i: int| 0 <= i < j ==> letters@.contains(#[trigger] query@[i]),
            forall|i: int| 0 <= i < letters@.len() ==> query@.contains(#[trigger] letters@[i]),
        decreases n - j,
    {
        let c = query[j];
        if !holds(&letters, c) {
            let ghost had = letters@;
            let ghost had_bytes = bytes_of(letter_bytes@);
            letters.push(c);
            letter_bytes.push(copy_bytes(&encodings[j]));
            proof {
                assert forall|i: int| 0 <= i < letters@.len() implies #[trigger] bytes_of(
                    letter_bytes@,
                )[i] == encoding(letters@[i]) by {
                    if i < had.len() {
                        assert(bytes_of(letter_bytes@)[i] == had_bytes[i]);
                    }
                }
                assert forall|i: int| 0 <= i < j + 1 implies letters@.contains(
                    #[trigger] query@[i],
                ) by {
                    if i < j {
                        let w = choose|w: int| 0 <= w < had.len() && had[w] == query@[i];
                        assert(letters@[w] == query@[i]);
                    } else {
                        assert(letters@[had.len() as int] == c);
                    }
                }
            }
        }
        j += 1;
    }
    (letters, letter_bytes)
}

/// The empty string and the proper prefixes of the letters' encodings, each
/// once: the places where the byte-level automaton stands inside a code point.
pub fn prefixes_of(letter_bytes: &Vec<Vec<u8>>) -> (prefixes: Vec<Vec<u8>>)
    ensures
        nodes_ok(bytes_of(letter_bytes@), bytes_of(prefixes@)),
{
    let ghost all = bytes_of(letter_bytes@);
    let mut prefixes: Vec<Vec<u8>> = Vec::new();
    prefixes.push(Vec::new());
    let n = letter_bytes.len();
    let mut a: usize = 0;
    while a < n
        invariant
            n == letter_bytes@.len(),
            all == bytes_of(letter_bytes@),
            a <= n,
            prefixes@.len() >= 1,
            bytes_of(prefixes@)[0].len() == 0,
            bytes_of(prefixes@).no_duplicates(),
            forall|t: int|
                1 <= t < prefixes@.len() ==> grounded(#[trigger] bytes_of(prefixes@)[t], all),
            forall|i: int, m: int|
                0 <= i < a && 1 <= m < all[i].len() ==> bytes_of(prefixes@).contains(
                    #[trigger] all[i].take(m),
                ),
        decreases n - a,
    {
        let e = &letter_bytes[a];
        assert(e@ == all[a as int]);
        let size = e.len();
        let mut w: Vec<u8> = Vec::new();
        let mut m: usize = 1;
        assert(e@.take(0) =~= w@);
        while m < size
            invariant
                n == letter_bytes@.len(),
                all == bytes_of(letter_bytes@),
                a < n,
                e@ == all[a as int],
                size == e@.len(),
                1 <= m,
                m <= size || size == 0,
                w@ == e@.take(m - 1),
                prefixes@.len() >= 1,
                bytes_of(prefixes@)[0].len() == 0,
                bytes_of(prefixes@).no_duplicates(),
                forall|t: int|
                    1 <= t < prefixes@.len() ==> grounded(#[trigger] bytes_of(prefixes@)[t], all),
                forall|i: int, q: int|
                    0 <= i < a && 1 <= q < all[i].len() ==> bytes_of(prefixes@).contains(
                        #[trigger] all[i].take(q),
                    ),
                forall|q: int|
                    1 <= q < m ==> bytes_of(prefixes@).contains(#[trigger] e@.take(q)),
            decreases size - m,
        {
            w.push(e[m - 1]);
            assert(w@ =~= e@.take(m as int));
            let ghost had = bytes_of(prefixes@);
            let found = find(&prefixes, &w);
            if found.is_none() {
                prefixes.push(copy_bytes(&w));
                proof {
                    let now = bytes_of(prefixes@);
                    assert(now =~= had.push(w@));
                    assert forall|t: int| 1 <= t < now.len() implies grounded(
                        #[trigger] now[t],
                        all,
                    ) by {
                        if t < had.len() {
                            assert(now[t] == had[t]);
                        } else {
                            assert(proper_prefix(now[t], all[a as int]));
                        }
                    }
                    assert forall|i: int, q: int|
                        0 <= i < a && 1 <= q < all[i].len() implies now.contains(
                        #[trigger] all[i].take(q),
                    ) by {
                        let x = choose|x: int| 0 <= x < had.len() && had[x] == all[i].take(q);
                        assert(now[x] == all[i].take(q));
                    }
                    assert forall|q: int| 1 <= q < m + 1 implies now.contains(
                        #[trigger] e@.take(q),
                    ) by {
                        if q < m {
                            let x = choose|x: int| 0 <= x < had.len() && had[x] == e@.take(q);
                            assert(now[x] == e@.take(q));
                        } else {
                            assert(now[had.len() as int] == e@.take(q));
                        }
                    }
                }
            } else {
                proof {
                    assert(had[found.unwrap() as int] == e@.take(m as int));
                }
            }
            m += 1;
        }
        a += 1;
    }
    prefixes
}

} // verus!
