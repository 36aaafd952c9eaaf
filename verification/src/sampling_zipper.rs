//! The branch bytes that a weighted walk over a trie chooses among.
use vstd::prelude::*;

verus! {

/// Whether byte `b` is set in the 256-bit mask `words` (four 64-bit words, lowest bytes
/// in the first word and in its low bits).
pub open spec fn mask_has(words: [u64; 4], b: u8) -> bool {
    (words@[(b / 64) as int] >> ((b % 64) as u64)) & 1u64 == 1u64
}

/// The bytes below `n` that are set in `words`, in ascending order.
pub open spec fn mask_bytes_below(words: [u64; 4], n: nat) -> Seq<u8>
    decreases n,
{
    if n == 0 {
        Seq::empty()
    } else if mask_has(words, (n - 1) as u8) {
        mask_bytes_below(words, (n - 1) as nat).push((n - 1) as u8)
    } else {
        mask_bytes_below(words, (n - 1) as nat)
    }
}

/// The bytes set in `words`, in ascending order.
pub open spec fn mask_bytes(words: [u64; 4]) -> Seq<u8> {
    mask_bytes_below(words, 256)
}

/// The set bytes below `n` are listed once each, ascending, and each is below `n`.
proof fn lemma_mask_bytes_below(words: [u64; 4], n: nat)
    requires
        n <= 256,
    ensures
        forall|i: int, j: int|
            0 <= i < j < mask_bytes_below(words, n).len() ==> mask_bytes_below(words, n)[i]
                < mask_bytes_below(words, n)[j],
        forall|i: int|
            0 <= i < mask_bytes_below(words, n).len() ==> mask_bytes_below(words, n)[i] < n,
        forall|b: u8| b < n ==> (mask_bytes_below(words, n).contains(b) <==> mask_has(words, b)),
    decreases n,
{
    if n > 0 {
        let m = (n - 1) as nat;
        lemma_mask_bytes_below(words, m);
        let s = mask_bytes_below(words, m);
        assert forall|b: u8| b < n implies (mask_bytes_below(words, n).contains(b) <==> mask_has(
            words,
            b,
        )) by {
            if mask_has(words, m as u8) {
                assert(mask_bytes_below(words, n) == s.push(m as u8));
                if b == m {
                    assert(s.push(m as u8)[s.len() as int] == b);
                } else if s.push(m as u8).contains(b) {
                    let k = choose|k: int| 0 <= k < s.len() + 1 && #[trigger] s.push(m as u8)[k] == b;
                    assert(k < s.len());
                    assert(s.contains(b));
                } else if s.contains(b) {
                    let k = choose|k: int| 0 <= k < s.len() && s[k] == b;
                    assert(s.push(m as u8)[k] == b);
                }
            }
        }
    }
}

/// The set bytes of a mask are listed once each, in ascending order, and a byte is
/// listed exactly when it is set.
pub proof fn lemma_mask_bytes(words: [u64; 4])
    ensures
        forall|i: int, j: int|
            0 <= i < j < mask_bytes(words).len() ==> mask_bytes(words)[i] < mask_bytes(words)[j],
        forall|b: u8| mask_bytes(words).contains(b) <==> mask_has(words, b),
{
    lemma_mask_bytes_below(words, 256);
}

/// The child bytes of a trie node whose child mask has the words `words`, ascending.
pub fn child_bytes(words: [u64; 4]) -> (r: Vec<u8>)
    ensures
        r@ == mask_bytes(words),
{
    let mut r: Vec<u8> = Vec::new();
    let mut b: usize = 0;
    while b < 256
        invariant
            b <= 256,
            r@ == mask_bytes_below(words, b as nat),
        decreases 256 - b,
    {
        let byte = b as u8;
        let word = words[b / 64];
        if (word >> ((b % 64) as u64)) & 1u64 == 1u64 {
            r.push(byte);
        }
        b = b + 1;
    }
    r
}

/// The branch that one step of a weighted walk takes from a node with child mask
/// `words`: `None` at a leaf, the only child when there is one, and otherwise the child
/// at the index that `roulette` draws for the number of children (the last child when the
/// draw gives no index in range).
pub fn sample_child_byte<F: FnOnce(usize) -> Option<usize>>(words: [u64; 4], roulette: F) -> (r:
    Option<u8>)
    requires
        forall|n: usize| call_requires(roulette, (n,)),
    ensures
        r is None <==> mask_bytes(words).len() == 0,
        r matches Some(b) ==> mask_has(words, b),
        mask_bytes(words).len() == 1 ==> r == Some(mask_bytes(words)[0]),
        mask_bytes(words).len() > 1 ==> exists|d: Option<usize>|
            #[trigger] call_ensures(roulette, (mask_bytes(words).len() as usize,), d) && r == Some(
                match d {
                    Some(i) if i < mask_bytes(words).len() => mask_bytes(words)[i as int],
                    _ => mask_bytes(words).last(),
                },
            ),
{
    proof {
        lemma_mask_bytes(words);
    }
    let bytes = child_bytes(words);
    let n = bytes.len();
    if n == 0 {
        return None;
    }
    proof {
        assert(bytes@.contains(bytes@[n - 1]));
    }
    if n == 1 {
        return Some(bytes[0]);
    }
    let d = roulette(n);
    let r = match d {
        Some(i) => {
            if i < n {
                proof {
                    assert(bytes@.contains(bytes@[i as int]));
                }
                Some(bytes[i])
            } else {
                Some(bytes[n - 1])
            }
        },
        None => Some(bytes[n - 1]),
    };
    proof {
        assert(n == mask_bytes(words).len() as usize);
        assert(call_ensures(roulette, (mask_bytes(words).len() as usize,), d));
    }
    r
}

} // verus!
