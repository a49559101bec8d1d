//! Small fixed-size matrix algebra for transforms.
//!
//! Matrices are 4×4, stored column-major as 16 signed 64-bit entries; the
//! entry at row `r`, column `c` lives at index `c*4 + r`.  All arithmetic
//! wraps on overflow, so every operation is total.  The transform
//! operations (translate, scale, rotate) are expressed as multiplication by
//! a constructor matrix applied on the left, matching the convention that an
//! appended transformation acts after the one already stored.

use vstd::prelude::*;

verus! {

use vstd::wrapping::i64_specs;

/// Wrapping product of two entries.
pub open spec fn wmul(a: i64, b: i64) -> i64 {
    i64_specs::wrapping_mul(a, b)
}

/// Wrapping sum of two entries.
pub open spec fn wadd(a: i64, b: i64) -> i64 {
    i64_specs::wrapping_add(a, b)
}

/// A 4×4 matrix: 16 entries, column-major.
pub struct Mat4 {
    pub m: Vec<i64>,
}

/// One matrix entry in a spec expression: row `r`, column `c`.
pub open spec fn ment(m: Seq<i64>, r: int, c: int) -> i64 {
    m[c * 4 + r]
}

/// The identity matrix.
pub open spec fn sident() -> Seq<i64> {
    seq![
        1i64, 0i64, 0i64, 0i64,
        0i64, 1i64, 0i64, 0i64,
        0i64, 0i64, 1i64, 0i64,
        0i64, 0i64, 0i64, 1i64,
    ]
}

/// The translation matrix moving by `(x, y, z)`.
pub open spec fn stranslation(x: i64, y: i64, z: i64) -> Seq<i64> {
    seq![
        1i64, 0i64, 0i64, 0i64,
        0i64, 1i64, 0i64, 0i64,
        0i64, 0i64, 1i64, 0i64,
        x, y, z, 1i64,
    ]
}

/// The non-uniform scaling matrix with factors `(x, y, z)`.
pub open spec fn sscaling(x: i64, y: i64, z: i64) -> Seq<i64> {
    seq![
        x, 0i64, 0i64, 0i64,
        0i64, y, 0i64, 0i64,
        0i64, 0i64, z, 0i64,
        0i64, 0i64, 0i64, 1i64,
    ]
}

/// The matrix product `a * b` with wrapping entry arithmetic.
pub open spec fn smat_mul(a: Seq<i64>, b: Seq<i64>) -> Seq<i64> {
    Seq::new(
        16,
        |j: int|
            wadd(
                wadd(
                    wadd(
                        wmul(ment(a, j % 4, 0), ment(b, 0, j / 4)),
                        wmul(ment(a, j % 4, 1), ment(b, 1, j / 4)),
                    ),
                    wmul(ment(a, j % 4, 2), ment(b, 2, j / 4)),
                ),
                wmul(ment(a, j % 4, 3), ment(b, 3, j / 4)),
            ),
    )
}

impl Mat4 {
    /// A matrix is well formed when it has exactly 16 entries.
    pub open spec fn wf(&self) -> bool {
        self.m@.len() == 16
    }

    pub open spec fn view_entries(&self) -> Seq<i64> {
        self.m@
    }

    pub fn identity() -> (r: Mat4)
        ensures
            r.wf(),
            r.m@ == sident(),
    {
        let m: Vec<i64> = vec![1, 0, 0, 0, 0, 1, 0, 0, 0, 0, 1, 0, 0, 0, 0, 1];
        let r = Mat4 { m };
        assert(r.m@ =~= sident());
        r
    }

    pub fn translation(x: i64, y: i64, z: i64) -> (r: Mat4)
        ensures
            r.wf(),
            r.m@ == stranslation(x, y, z),
    {
        let m: Vec<i64> = vec![1, 0, 0, 0, 0, 1, 0, 0, 0, 0, 1, 0, x, y, z, 1];
        let r = Mat4 { m };
        assert(r.m@ =~= stranslation(x, y, z));
        r
    }

    pub fn scaling(x: i64, y: i64, z: i64) -> (r: Mat4)
        ensures
            r.wf(),
            r.m@ == sscaling(x, y, z),
    {
        let m: Vec<i64> = vec![x, 0, 0, 0, 0, y, 0, 0, 0, 0, z, 0, 0, 0, 0, 1];
        let r = Mat4 { m };
        assert(r.m@ =~= sscaling(x, y, z));
        r
    }

    pub fn duplicate(&self) -> (r: Mat4)
        ensures
            r.m@ == self.m@,
    {
        let mut m: Vec<i64> = Vec::new();
        let mut i: usize = 0;
        while i < self.m.len()
            invariant
                i <= self.m@.len(),
                m@ =~= self.m@.subrange(0, i as int),
            decreases self.m@.len() - i,
        {
            m.push(self.m[i]);
            assert(m@ =~= self.m@.subrange(0, i + 1 as int));
            i = i + 1;
        }
        assert(m@ =~= self.m@);
        Mat4 { m }
    }
}

/// The matrix product `a * b`.
pub fn mat_mul(a: &Mat4, b: &Mat4) -> (r: Mat4)
    requires
        a.wf(),
        b.wf(),
    ensures
        r.wf(),
        r.m@ == smat_mul(a.m@, b.m@),
{
    let mut m: Vec<i64> = Vec::new();
    let mut i: usize = 0;
    while i < 16
        invariant
            a.wf(),
            b.wf(),
            i <= 16,
            m@.len() == i as int,
            forall|j: int| 0 <= j < i ==> m@[j] == smat_mul(a.m@, b.m@)[j],
        decreases 16 - i,
    {
        let r0: usize = i % 4;
        let c: usize = i / 4;
        let t0 = a.m[r0].wrapping_mul(b.m[c * 4]);
        let t1 = a.m[4 + r0].wrapping_mul(b.m[c * 4 + 1]);
        let t2 = a.m[8 + r0].wrapping_mul(b.m[c * 4 + 2]);
        let t3 = a.m[12 + r0].wrapping_mul(b.m[c * 4 + 3]);
        let s = t0.wrapping_add(t1).wrapping_add(t2).wrapping_add(t3);
        m.push(s);
        i = i + 1;
    }
    let r = Mat4 { m };
    assert(r.m@ =~= smat_mul(a.m@, b.m@));
    r
}

} // verus!
