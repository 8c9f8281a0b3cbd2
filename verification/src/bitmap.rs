//! The null bitmap of a feature record: bit `c` (bit `c % 8` of byte
//! `c / 8`, least significant first) is set when column `c` holds a value.

use vstd::prelude::*;

verus! {

/// The bit of column `c` within its byte: `1 << b` if the column holds a
/// value, else 0. Columns past the end hold none.
pub open spec fn bit_term(present: Seq<bool>, c: int, b: u8) -> u8 {
    if 0 <= c < present.len() && present[c] {
        1u8 << b
    } else {
        0u8
    }
}

/// Byte `k` of the bitmap.
pub open spec fn bitmap_byte(present: Seq<bool>, k: int) -> u8 {
    bit_term(present, 8 * k, 0) | bit_term(present, 8 * k + 1, 1) | bit_term(present, 8 * k + 2, 2)
        | bit_term(present, 8 * k + 3, 3) | bit_term(present, 8 * k + 4, 4) | bit_term(
        present,
        8 * k + 5,
        5,
    ) | bit_term(present, 8 * k + 6, 6) | bit_term(present, 8 * k + 7, 7)
}

/// The bitmap of `nbytes` bytes for the given presence of each column.
pub open spec fn bitmap_of(present: Seq<bool>, nbytes: nat) -> Seq<u8> {
    Seq::new(nbytes, |k: int| bitmap_byte(present, k))
}

/// Whether the bitmap marks column `c` as present.
pub open spec fn bit_set(bitmap: Seq<u8>, c: int) -> bool {
    bitmap[c / 8] & (1u8 << ((c % 8) as u8)) != 0u8
}

/// Each column's bit reads back as its presence.
pub proof fn lemma_bit_set(present: Seq<bool>, nbytes: nat, c: int)
    requires
        0 <= c < present.len(),
        c / 8 < nbytes,
    ensures
        bit_set(bitmap_of(present, nbytes), c) == present[c],
{
    let k = c / 8;
    let t0 = bit_term(present, 8 * k, 0);
    let t1 = bit_term(present, 8 * k + 1, 1);
    let t2 = bit_term(present, 8 * k + 2, 2);
    let t3 = bit_term(present, 8 * k + 3, 3);
    let t4 = bit_term(present, 8 * k + 4, 4);
    let t5 = bit_term(present, 8 * k + 5, 5);
    let t6 = bit_term(present, 8 * k + 6, 6);
    let t7 = bit_term(present, 8 * k + 7, 7);
    let x = t0 | t1 | t2 | t3 | t4 | t5 | t6 | t7;
    assert(x == bitmap_of(present, nbytes)[k]);
    let b = (c % 8) as u8;
    assert(c == 8 * k + b);
    assert(((t0 == 0u8 || t0 == 1u8 << 0u8) && (t1 == 0u8 || t1 == 1u8 << 1u8) && (t2 == 0u8
        || t2 == 1u8 << 2u8) && (t3 == 0u8 || t3 == 1u8 << 3u8) && (t4 == 0u8 || t4 == 1u8 << 4u8)
        && (t5 == 0u8 || t5 == 1u8 << 5u8) && (t6 == 0u8 || t6 == 1u8 << 6u8) && (t7 == 0u8 || t7
        == 1u8 << 7u8) && x == t0 | t1 | t2 | t3 | t4 | t5 | t6 | t7 && b < 8) ==> ((x & (1u8
        << b) != 0u8) == (if b == 0 {
        t0 != 0u8
    } else if b == 1 {
        t1 != 0u8
    } else if b == 2 {
        t2 != 0u8
    } else if b == 3 {
        t3 != 0u8
    } else if b == 4 {
        t4 != 0u8
    } else if b == 5 {
        t5 != 0u8
    } else if b == 6 {
        t6 != 0u8
    } else {
        t7 != 0u8
    }))) by (bit_vector);
    assert((1u8 << 0u8) != 0u8 && (1u8 << 1u8) != 0u8 && (1u8 << 2u8) != 0u8 && (1u8 << 3u8)
        != 0u8 && (1u8 << 4u8) != 0u8 && (1u8 << 5u8) != 0u8 && (1u8 << 6u8) != 0u8 && (1u8
        << 7u8) != 0u8) by (bit_vector);
}

/// Setting the bit of column `c` in a bitmap of the columns before `c`
/// gives the bitmap of the columns up to and including `c`.
proof fn lemma_bitmap_step(present: Seq<bool>, nbytes: nat, c: int)
    requires
        0 <= c < present.len(),
        c / 8 < nbytes,
    ensures
        bitmap_of(present.take(c + 1), nbytes) == bitmap_of(present.take(c), nbytes).update(
            c / 8,
            bitmap_of(present.take(c), nbytes)[c / 8] | (if present[c] {
                1u8 << ((c % 8) as u8)
            } else {
                0u8
            }),
        ),
{
    let p = present.take(c);
    let q = present.take(c + 1);
    let k = c / 8;
    let b = (c % 8) as u8;
    let v: u8 = if present[c] {
        1u8 << b
    } else {
        0u8
    };
    assert forall|kk: int, bb: u8| #![trigger bit_term(q, 8 * kk + bb, bb)] 8 * kk + bb != c
        implies bit_term(q, 8 * kk + bb, bb) == bit_term(p, 8 * kk + bb, bb) by {
        let i = 8 * kk + bb;
        if 0 <= i < c {
            assert(q[i] == p[i]);
        }
    }
    assert(bit_term(p, c, b) == 0u8);
    assert(bit_term(q, c, b) == v) by {
        assert(q[c] == present[c]);
    }
    let t0 = bit_term(p, 8 * k, 0);
    let t1 = bit_term(p, 8 * k + 1, 1);
    let t2 = bit_term(p, 8 * k + 2, 2);
    let t3 = bit_term(p, 8 * k + 3, 3);
    let t4 = bit_term(p, 8 * k + 4, 4);
    let t5 = bit_term(p, 8 * k + 5, 5);
    let t6 = bit_term(p, 8 * k + 6, 6);
    let t7 = bit_term(p, 8 * k + 7, 7);
    assert(c == 8 * k + b);
    assert(b < 8);
    let x = t0 | t1 | t2 | t3 | t4 | t5 | t6 | t7;
    let y = (if b == 0 {
        v
    } else {
        t0
    }) | (if b == 1 {
        v
    } else {
        t1
    }) | (if b == 2 {
        v
    } else {
        t2
    }) | (if b == 3 {
        v
    } else {
        t3
    }) | (if b == 4 {
        v
    } else {
        t4
    }) | (if b == 5 {
        v
    } else {
        t5
    }) | (if b == 6 {
        v
    } else {
        t6
    }) | (if b == 7 {
        v
    } else {
        t7
    });
    assert(((b == 0 ==> t0 == 0u8) && (b == 1 ==> t1 == 0u8) && (b == 2 ==> t2 == 0u8) && (b == 3
        ==> t3 == 0u8) && (b == 4 ==> t4 == 0u8) && (b == 5 ==> t5 == 0u8) && (b == 6 ==> t6
        == 0u8) && (b == 7 ==> t7 == 0u8) && b < 8 && x == t0 | t1 | t2 | t3 | t4 | t5 | t6 | t7
        && y == (if b == 0 {
        v
    } else {
        t0
    }) | (if b == 1 {
        v
    } else {
        t1
    }) | (if b == 2 {
        v
    } else {
        t2
    }) | (if b == 3 {
        v
    } else {
        t3
    }) | (if b == 4 {
        v
    } else {
        t4
    }) | (if b == 5 {
        v
    } else {
        t5
    }) | (if b == 6 {
        v
    } else {
        t6
    }) | (if b == 7 {
        v
    } else {
        t7
    })) ==> y == x | v) by (bit_vector);
    assert(bitmap_byte(q, k) == y);
    assert(bitmap_byte(p, k) == x);
    assert(bitmap_of(q, nbytes) =~= bitmap_of(p, nbytes).update(k, x | v));
}

/// The null bitmap of `nbytes` bytes for the given presence of each column.
pub fn build_null_bitmap(present: &Vec<bool>, nbytes: usize) -> (bitmap: Vec<u8>)
    requires
        present.len() <= 8 * nbytes,
    ensures
        bitmap@ == bitmap_of(present@, nbytes as nat),
{
    let mut bitmap: Vec<u8> = Vec::new();
    let mut k: usize = 0;
    while k < nbytes
        invariant
            k <= nbytes,
            bitmap@.len() == k,
            forall|i: int| 0 <= i < k ==> bitmap@[i] == 0u8,
        decreases nbytes - k,
    {
        bitmap.push(0u8);
        k = k + 1;
    }
    proof {
        assert forall|kk: int, bb: u8| #![trigger bit_term(present@.take(0), 8 * kk + bb, bb)]
            true implies bit_term(present@.take(0), 8 * kk + bb, bb) == 0u8 by {}
        assert((0u8 | 0u8 | 0u8 | 0u8 | 0u8 | 0u8 | 0u8 | 0u8) == 0u8) by (bit_vector);
        assert(bitmap@ =~= bitmap_of(present@.take(0), nbytes as nat));
    }
    let mut c: usize = 0;
    while c < present.len()
        invariant
            c <= present.len(),
            present.len() <= 8 * nbytes,
            bitmap@ == bitmap_of(present@.take(c as int), nbytes as nat),
        decreases present.len() - c,
    {
        proof {
            lemma_bitmap_step(present@, nbytes as nat, c as int);
        }
        if present[c] {
            let old_byte = bitmap[c / 8];
            bitmap.set(c / 8, old_byte | (1u8 << ((c % 8) as u8)));
        } else {
            let old_byte = bitmap[c / 8];
            assert(old_byte | 0u8 == old_byte) by (bit_vector);
            assert(bitmap@ =~= bitmap@.update((c / 8) as int, old_byte | 0u8));
        }
        c = c + 1;
    }
    assert(present@.take(present.len() as int) =~= present@);
    bitmap
}

} // verus!
