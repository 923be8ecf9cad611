//! A recursive-aggregation example AIR: its trace carries an accumulator
//! chain between a previous digest and the digest that absorbs the current
//! proof, with two running-sum columns binding the first two limbs.

use vstd::prelude::*;
use crate::field::{Fp, MODULUS};
use crate::hash::{xof_of, h_many_tail, dom_accumulator, DIGEST_LEN};
use crate::examples::{hc_limb};
use crate::stark::accumulate;
use crate::poly::all_canonical;

verus! {

/// The public input of the recursive AIR.
#[derive(Clone, Debug)]
pub struct RecursivePublic {
    pub prev_digest: Vec<u8>,
    pub cur_digest: Vec<u8>,
    pub inner_proof_root: Vec<u8>,
}

/// A simplified recursive-verification AIR over eight columns: six digest
/// limbs and two running-sum accumulators.
#[derive(Clone)]
pub struct RecursiveAir {
    pub steps: usize,
    pub prev: Vec<u8>,
    pub cur: Vec<u8>,
    pub inner_root: Vec<u8>,
}

/// A 48-byte all-zero digest.
pub open spec fn zeros48() -> Seq<u8> {
    Seq::new(48, |i: int| 0u8)
}

/// Whether every byte of a string is zero.
pub open spec fn all_zero(b: Seq<u8>) -> bool {
    forall|i: int| 0 <= i < b.len() ==> b[i] == 0u8
}

/// The digest the aggregation step produces: the accumulator hash of the
/// current digest, chained with the previous digest unless that is absent
/// (empty or all zero).
pub open spec fn rec_new_digest(prev: Seq<u8>, cur: Seq<u8>) -> Seq<u8> {
    if prev.len() == 0 || all_zero(prev) {
        xof_of(dom_accumulator() + h_many_tail(seq![cur]), DIGEST_LEN as nat)
    } else {
        xof_of(dom_accumulator() + h_many_tail(seq![prev, cur]), DIGEST_LEN as nat)
    }
}

/// Limb `j` of a digest-limb column after `i` mixing steps: start at the
/// previous digest's limb and add the current digest's limb each row.
pub open spec fn rec_mix(p: int, c: int, i: nat) -> int
    decreases i,
{
    if i == 0 {
        p
    } else {
        (rec_mix(p, c, (i - 1) as nat) + c) % MODULUS as int
    }
}

/// A running-sum column: starts at zero and absorbs the mixed limb of each
/// later row.
pub open spec fn rec_hs(p: int, c: int, i: nat) -> int
    decreases i,
{
    if i == 0 {
        0
    } else {
        (rec_hs(p, c, (i - 1) as nat) + rec_mix(p, c, i)) % MODULUS as int
    }
}

/// The first-row boundary: limbs match the previous digest.
pub open spec fn rec_first_row_ok(row: Seq<Fp>, prev: Seq<u8>) -> bool {
    forall|j: int| 0 <= j < 6 ==> (#[trigger] row[j]).0 == hc_limb(prev, j)
}

/// The mixing transition between consecutive rows' limb columns.
pub open spec fn rec_mix_ok(row: Seq<Fp>, nxt: Seq<Fp>, cur: Seq<u8>) -> bool {
    forall|j: int| 0 <= j < 6 ==> (#[trigger] nxt[j]).0
        == (row[j].0 + hc_limb(cur, j)) % MODULUS as int
}

/// The last-row boundary: limbs match the output digest.
pub open spec fn rec_last_row_ok(row: Seq<Fp>, cur: Seq<u8>) -> bool {
    forall|j: int| 0 <= j < 6 ==> (#[trigger] row[j]).0 == hc_limb(cur, j)
}

/// What `RecursiveAir::check_row` decides.
pub open spec fn rec_check_row(i: nat, row: Seq<Fp>, next: Option<Seq<Fp>>,
    p: RecursivePublic) -> bool {
    &&& (i == 0 ==> rec_first_row_ok(row, p.prev_digest@))
    &&& match next {
        Option::Some(nxt) => {
            &&& rec_mix_ok(row, nxt, p.cur_digest@)
            &&& nxt[6].0 == (row[6].0 + nxt[0].0) % MODULUS as int
            &&& nxt[7].0 == (row[7].0 + nxt[1].0) % MODULUS as int
        },
        Option::None => rec_last_row_ok(row, p.cur_digest@),
    }
}

/// Whether every byte of a slice is zero.
fn is_all_zero(b: &[u8]) -> (r: bool)
    ensures
        r == all_zero(b@),
{
    let mut i: usize = 0;
    while i < b.len()
        invariant
            i <= b@.len(),
            forall|q: int| 0 <= q < i ==> b@[q] == 0u8,
        decreases b@.len() - i,
    {
        if *vstd::slice::slice_index_get(b, i) != 0u8 {
            return false;
        }
        i = i + 1;
    }
    true
}

/// Read the six 64-bit limbs of a digest, zero where it is too short.
pub fn digest_limbs(b: &[u8]) -> (r: Vec<Fp>)
    ensures
        r@.len() == 6,
        forall|j: int| 0 <= j < 6 ==> (#[trigger] r@[j]).0 == hc_limb(b@, j),
        all_canonical(r@),
{
    let blen: usize = b.len();
    let mut out: Vec<Fp> = Vec::new();
    let mut j: usize = 0;
    while j < 6
        invariant
            out@.len() == j,
            j <= 6,
            blen == b@.len(),
            forall|q: int| 0 <= q < j ==> (#[trigger] out@[q]).0 == hc_limb(b@, q),
            all_canonical(out@),
        decreases 6 - j,
    {
        if 8 * j + 8 <= blen {
            let w = vstd::bytes::u64_from_le_bytes(&b[8 * j..8 * j + 8]);
            out.push(Fp::new(w));
        } else {
            out.push(Fp::zero());
        }
        j = j + 1;
    }
    out
}

impl RecursiveAir {
    /// An aggregation instance; an absent previous digest reads as 48 zero
    /// bytes.
    pub fn new(prev: Option<&[u8]>, cur: &[u8], inner_root: &[u8], steps: usize)
        -> (r: Self)
        ensures
            r.prev@ == match prev {
                Option::Some(p) => p@,
                Option::None => zeros48(),
            },
            r.cur@ == cur@,
            r.inner_root@ == inner_root@,
            r.steps == steps,
    {
        let prev_vec = match prev {
            Option::Some(p) => vstd::slice::slice_to_vec(p),
            Option::None => {
                let mut z: Vec<u8> = Vec::new();
                let mut i: usize = 0;
                while i < 48
                    invariant
                        z@.len() == i,
                        i <= 48,
                        forall|q: int| 0 <= q < i ==> z@[q] == 0u8,
                    decreases 48 - i,
                {
                    z.push(0u8);
                    i = i + 1;
                }
                proof {
                    assert(z@ =~= zeros48());
                }
                z
            },
        };
        RecursiveAir {
            steps,
            prev: prev_vec,
            cur: vstd::slice::slice_to_vec(cur),
            inner_root: vstd::slice::slice_to_vec(inner_root),
        }
    }

    pub fn id(&self) -> (r: &'static str)
        ensures
            r@ == "recursive_v2"@,
    {
        "recursive_v2"
    }

    pub fn trace_len(&self) -> (r: usize)
        ensures
            r == self.steps,
    {
        self.steps
    }

    pub fn n_cols(&self) -> (r: usize)
        ensures
            r == 8,
    {
        8
    }

    /// The public input: the previous digest, the accumulator hash it chains
    /// to, and the inner proof root.
    pub fn public_input(&self) -> (r: RecursivePublic)
        ensures
            r.prev_digest@ == self.prev@,
            r.cur_digest@ == rec_new_digest(self.prev@, self.cur@),
            r.inner_proof_root@ == self.inner_root@,
    {
        let new_digest = if self.prev.len() == 0 || is_all_zero(self.prev.as_slice()) {
            accumulate(Option::None, self.cur.as_slice())
        } else {
            accumulate(Option::Some(self.prev.as_slice()), self.cur.as_slice())
        };
        RecursivePublic {
            prev_digest: self.prev.clone(),
            cur_digest: new_digest,
            inner_proof_root: self.inner_root.clone(),
        }
    }

    /// Generate the trace: limb columns mix the current digest in row by
    /// row, the running sums absorb the first two, and the final row is
    /// overwritten with the limbs of the expected output digest.
    pub fn gen_trace(&self) -> (r: Vec<Vec<Fp>>)
        requires
            self.steps >= 1,
        ensures
            r@.len() == 8,
            forall|j: int| 0 <= j < 8 ==> (#[trigger] r@[j])@.len() == self.steps,
            forall|j: int, i: int| 0 <= j < 6 && 0 <= i < self.steps - 1
                ==> (#[trigger] r@[j]@[i]).0
                    == rec_mix(hc_limb(self.prev@, j), hc_limb(self.cur@, j), i as nat),
            forall|j: int| 0 <= j < 6 ==> (#[trigger] r@[j]@[self.steps - 1]).0
                == hc_limb(rec_new_digest(self.prev@, self.cur@), j),
            forall|i: int| 0 <= i < self.steps ==> (#[trigger] r@[6]@[i]).0
                == rec_hs(hc_limb(self.prev@, 0), hc_limb(self.cur@, 0), i as nat),
            forall|i: int| 0 <= i < self.steps ==> (#[trigger] r@[7]@[i]).0
                == rec_hs(hc_limb(self.prev@, 1), hc_limb(self.cur@, 1), i as nat),
            forall|j: int| 0 <= j < 8 ==> all_canonical((#[trigger] r@[j])@),
    {
        let n = self.steps;
        let prev_limbs = digest_limbs(self.prev.as_slice());
        let cur_limbs = digest_limbs(self.cur.as_slice());
        let mut cols: Vec<Vec<Fp>> = Vec::new();
        let mut j: usize = 0;
        // limb columns: mix one step per row
        while j < 6
            invariant
                cols@.len() == j,
                j <= 6,
                n == self.steps >= 1,
                prev_limbs@.len() == 6,
                cur_limbs@.len() == 6,
                all_canonical(prev_limbs@),
                all_canonical(cur_limbs@),
                forall|q: int| 0 <= q < 6 ==> (#[trigger] prev_limbs@[q]).0
                    == hc_limb(self.prev@, q),
                forall|q: int| 0 <= q < 6 ==> (#[trigger] cur_limbs@[q]).0
                    == hc_limb(self.cur@, q),
                forall|q: int| 0 <= q < j ==> (#[trigger] cols@[q])@.len() == n,
                forall|q: int, i: int| 0 <= q < j && 0 <= i < n
                    ==> (#[trigger] cols@[q]@[i]).0
                        == rec_mix(hc_limb(self.prev@, q), hc_limb(self.cur@, q), i as nat),
                forall|q: int| 0 <= q < j ==> all_canonical((#[trigger] cols@[q])@),
            decreases 6 - j,
        {
            let mut col: Vec<Fp> = Vec::new();
            let mut x = prev_limbs[j];
            let mut i: usize = 0;
            while i < n
                invariant
                    col@.len() == i,
                    i <= n,
                    x.canonical(),
                    cur_limbs@.len() == 6,
                    j < 6,
                    all_canonical(cur_limbs@),
                    cur_limbs@[j as int].0 == hc_limb(self.cur@, j as int),
                    x.0 == rec_mix(hc_limb(self.prev@, j as int),
                        hc_limb(self.cur@, j as int), i as nat),
                    forall|q: int| 0 <= q < i ==> (#[trigger] col@[q]).0
                        == rec_mix(hc_limb(self.prev@, j as int),
                            hc_limb(self.cur@, j as int), q as nat),
                    all_canonical(col@),
                decreases n - i,
            {
                col.push(x);
                x = x.add(cur_limbs[j]);
                i = i + 1;
            }
            cols.push(col);
            j = j + 1;
        }
        // the two running-sum columns
        let mut h6: Vec<Fp> = Vec::new();
        let mut h7: Vec<Fp> = Vec::new();
        let ghost p0 = hc_limb(self.prev@, 0);
        let ghost c0v = hc_limb(self.cur@, 0);
        let ghost p1 = hc_limb(self.prev@, 1);
        let ghost c1v = hc_limb(self.cur@, 1);
        let mut a6 = Fp::zero();
        let mut a7 = Fp::zero();
        let mut i: usize = 0;
        while i < n
            invariant
                h6@.len() == i,
                h7@.len() == i,
                i <= n,
                cols@.len() == 6,
                cols@[0]@.len() == n,
                cols@[1]@.len() == n,
                all_canonical(cols@[0]@),
                all_canonical(cols@[1]@),
                forall|q: int| 0 <= q < n ==> (#[trigger] cols@[0]@[q]).0
                    == rec_mix(p0, c0v, q as nat),
                forall|q: int| 0 <= q < n ==> (#[trigger] cols@[1]@[q]).0
                    == rec_mix(p1, c1v, q as nat),
                p0 == hc_limb(self.prev@, 0),
                c0v == hc_limb(self.cur@, 0),
                p1 == hc_limb(self.prev@, 1),
                c1v == hc_limb(self.cur@, 1),
                a6.canonical(),
                a7.canonical(),
                i < n ==> a6.0 == rec_hs(p0, c0v, i as nat),
                i < n ==> a7.0 == rec_hs(p1, c1v, i as nat),
                forall|q: int| 0 <= q < i ==> (#[trigger] h6@[q]).0
                    == rec_hs(p0, c0v, q as nat),
                forall|q: int| 0 <= q < i ==> (#[trigger] h7@[q]).0
                    == rec_hs(p1, c1v, q as nat),
                all_canonical(h6@),
                all_canonical(h7@),
            decreases n - i,
        {
            h6.push(a6);
            h7.push(a7);
            if i + 1 < n {
                let e0 = &cols[0];
                let v0 = e0[i + 1];
                let e1 = &cols[1];
                let v1 = e1[i + 1];
                a6 = a6.add(v0);
                a7 = a7.add(v1);
            }
            i = i + 1;
            proof {
                if i < n {
                    assert(a6.0 == rec_hs(p0, c0v, i as nat));
                    assert(a7.0 == rec_hs(p1, c1v, i as nat));
                }
            }
        }
        cols.push(h6);
        cols.push(h7);
        // overwrite the final row of the limb columns with the output digest
        let pub_inp = self.public_input();
        let expected_limbs = digest_limbs(pub_inp.cur_digest.as_slice());
        let mut jj: usize = 0;
        while jj < 6
            invariant
                jj <= 6,
                cols@.len() == 8,
                n == self.steps >= 1,
                expected_limbs@.len() == 6,
                all_canonical(expected_limbs@),
                forall|q: int| 0 <= q < 6 ==> (#[trigger] expected_limbs@[q]).0
                    == hc_limb(rec_new_digest(self.prev@, self.cur@), q),
                forall|q: int| 0 <= q < 8 ==> (#[trigger] cols@[q])@.len() == n,
                forall|q: int, i2: int| 0 <= q < 6 && 0 <= i2 < n
                    && !(q < jj && i2 == n - 1) ==> (#[trigger] cols@[q]@[i2]).0
                        == rec_mix(hc_limb(self.prev@, q), hc_limb(self.cur@, q), i2 as nat),
                forall|q: int| 0 <= q < jj ==> (#[trigger] cols@[q]@[n - 1]).0
                    == hc_limb(rec_new_digest(self.prev@, self.cur@), q),
                forall|q: int| 0 <= q < n ==> (#[trigger] cols@[6]@[q]).0
                    == rec_hs(hc_limb(self.prev@, 0), hc_limb(self.cur@, 0), q as nat),
                forall|q: int| 0 <= q < n ==> (#[trigger] cols@[7]@[q]).0
                    == rec_hs(hc_limb(self.prev@, 1), hc_limb(self.cur@, 1), q as nat),
                forall|q: int| 0 <= q < 8 ==> all_canonical((#[trigger] cols@[q])@),
            decreases 6 - jj,
        {
            let ghost before = cols@;
            let v = expected_limbs[jj];
            let colref = &mut cols[jj];
            colref[n - 1] = v;
            proof {
                assert(forall|q: int| 0 <= q < 8 && q != jj ==> cols@[q] == before[q]);
                assert(cols@[jj as int]@ =~= before[jj as int]@.update(n - 1, v));
            }
            jj = jj + 1;
        }
        cols
    }

    /// The verifier's row predicate: the first row carries the previous
    /// digest's limbs, interior rows mix and accumulate, the last row
    /// carries the output digest's limbs.
    pub fn check_row(i: usize, row: &[Fp], next: Option<&[Fp]>, pub_inp: &RecursivePublic)
        -> (r: bool)
        requires
            row@.len() == 8,
            all_canonical(row@),
            match next {
                Option::Some(nxt) => nxt@.len() == 8 && all_canonical(nxt@),
                Option::None => true,
            },
        ensures
            r == rec_check_row(i as nat, row@, match next {
                Option::Some(nxt) => Option::Some(nxt@),
                Option::None => Option::None,
            }, *pub_inp),
    {
        if i == 0 {
            let prev_limbs = digest_limbs(pub_inp.prev_digest.as_slice());
            let mut j: usize = 0;
            while j < 6
                invariant
                    j <= 6,
                    i == 0,
                    row@.len() == 8,
                    prev_limbs@.len() == 6,
                    forall|q: int| 0 <= q < 6 ==> (#[trigger] prev_limbs@[q]).0
                        == hc_limb(pub_inp.prev_digest@, q),
                    forall|q: int| 0 <= q < j ==> (#[trigger] row@[q]).0
                        == hc_limb(pub_inp.prev_digest@, q),
                decreases 6 - j,
            {
                if row[j].to_u64() != prev_limbs[j].to_u64() {
                    proof {
                        assert(!rec_first_row_ok(row@, pub_inp.prev_digest@));
                    }
                    return false;
                }
                j = j + 1;
            }
        }
        match next {
            Option::Some(nxt) => {
                let cur_limbs = digest_limbs(pub_inp.cur_digest.as_slice());
                let mut j: usize = 0;
                while j < 6
                    invariant
                        j <= 6,
                        next == Option::Some(nxt),
                        row@.len() == 8,
                        nxt@.len() == 8,
                        all_canonical(row@),
                        all_canonical(nxt@),
                        cur_limbs@.len() == 6,
                        all_canonical(cur_limbs@),
                        forall|q: int| 0 <= q < 6 ==> (#[trigger] cur_limbs@[q]).0
                            == hc_limb(pub_inp.cur_digest@, q),
                        forall|q: int| 0 <= q < j ==> (#[trigger] nxt@[q]).0
                            == (row@[q].0 + hc_limb(pub_inp.cur_digest@, q))
                                % MODULUS as int,
                    decreases 6 - j,
                {
                    let expected_next = row[j].add(cur_limbs[j]);
                    if nxt[j].to_u64() != expected_next.to_u64() {
                        proof {
                            assert(!rec_mix_ok(row@, nxt@, pub_inp.cur_digest@));
                        }
                        return false;
                    }
                    j = j + 1;
                }
                if nxt[6].to_u64() != row[6].add(nxt[0]).to_u64() {
                    return false;
                }
                if nxt[7].to_u64() != row[7].add(nxt[1]).to_u64() {
                    return false;
                }
                true
            },
            Option::None => {
                let cur_limbs = digest_limbs(pub_inp.cur_digest.as_slice());
                let mut j: usize = 0;
                while j < 6
                    invariant
                        j <= 6,
                        next is None,
                        row@.len() == 8,
                        cur_limbs@.len() == 6,
                        forall|q: int| 0 <= q < 6 ==> (#[trigger] cur_limbs@[q]).0
                            == hc_limb(pub_inp.cur_digest@, q),
                        forall|q: int| 0 <= q < j ==> (#[trigger] row@[q]).0
                            == hc_limb(pub_inp.cur_digest@, q),
                    decreases 6 - j,
                {
                    if row[j].to_u64() != cur_limbs[j].to_u64() {
                        proof {
                            assert(!rec_last_row_ok(row@, pub_inp.cur_digest@));
                        }
                        return false;
                    }
                    j = j + 1;
                }
                true
            },
        }
    }

    /// The constraint vector mirroring `check_row`, one entry per column.
    pub fn eval_constraints(&self, i: usize, row: &[Fp], next: Option<&[Fp]>,
        pub_inp: &RecursivePublic) -> (r: Vec<Fp>)
        requires
            row@.len() == 8,
            all_canonical(row@),
            match next {
                Option::Some(nxt) => nxt@.len() == 8 && all_canonical(nxt@),
                Option::None => true,
            },
        ensures
            r@.len() == 8,
            match next {
                Option::Some(nxt) => {
                    &&& forall|j: int| 0 <= j < 6 ==> (#[trigger] r@[j]).0
                        == (nxt[j].0 - (row[j].0 + hc_limb(pub_inp.cur_digest@, j))
                            % MODULUS as int) % MODULUS as int
                    &&& r@[6].0 == (nxt[6].0 - (row[6].0 + nxt[0].0) % MODULUS as int)
                        % MODULUS as int
                    &&& r@[7].0 == (nxt[7].0 - (row[7].0 + nxt[1].0) % MODULUS as int)
                        % MODULUS as int
                },
                Option::None => {
                    &&& forall|j: int| 0 <= j < 6 ==> (#[trigger] r@[j]).0
                        == (row[j].0 - hc_limb(pub_inp.cur_digest@, j)) % MODULUS as int
                    &&& r@[6].0 == 0
                    &&& r@[7].0 == 0
                },
            },
    {
        let _ = i;
        let cur_limbs = digest_limbs(pub_inp.cur_digest.as_slice());
        let mut out: Vec<Fp> = Vec::new();
        match next {
            Option::Some(nxt) => {
                let mut j: usize = 0;
                while j < 6
                    invariant
                        out@.len() == j,
                        j <= 6,
                        next == Option::Some(nxt),
                        row@.len() == 8,
                        nxt@.len() == 8,
                        all_canonical(row@),
                        all_canonical(nxt@),
                        cur_limbs@.len() == 6,
                        all_canonical(cur_limbs@),
                        forall|q: int| 0 <= q < 6 ==> (#[trigger] cur_limbs@[q]).0
                            == hc_limb(pub_inp.cur_digest@, q),
                        forall|q: int| 0 <= q < j ==> (#[trigger] out@[q]).0
                            == (nxt@[q].0 - (row@[q].0 + hc_limb(pub_inp.cur_digest@, q))
                                % MODULUS as int) % MODULUS as int,
                        all_canonical(out@),
                    decreases 6 - j,
                {
                    out.push(nxt[j].sub(row[j].add(cur_limbs[j])));
                    j = j + 1;
                }
                out.push(nxt[6].sub(row[6].add(nxt[0])));
                out.push(nxt[7].sub(row[7].add(nxt[1])));
                out
            },
            Option::None => {
                let mut j: usize = 0;
                while j < 6
                    invariant
                        out@.len() == j,
                        j <= 6,
                        next is None,
                        row@.len() == 8,
                        all_canonical(row@),
                        cur_limbs@.len() == 6,
                        all_canonical(cur_limbs@),
                        forall|q: int| 0 <= q < 6 ==> (#[trigger] cur_limbs@[q]).0
                            == hc_limb(pub_inp.cur_digest@, q),
                        forall|q: int| 0 <= q < j ==> (#[trigger] out@[q]).0
                            == (row@[q].0 - hc_limb(pub_inp.cur_digest@, q))
                                % MODULUS as int,
                        all_canonical(out@),
                    decreases 6 - j,
                {
                    out.push(row[j].sub(cur_limbs[j]));
                    j = j + 1;
                }
                out.push(Fp::zero());
                out.push(Fp::zero());
                out
            },
        }
    }
}

} // verus!
