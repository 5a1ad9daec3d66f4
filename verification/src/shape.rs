//! What every shape keeps: an identifier, whether it casts a shadow, its
//! transformation with the inverse and the transposed inverse, and its
//! material.
use vstd::prelude::*;
use crate::lighting::Material;
use crate::matrix::{
    det_spec, identity_4x4, identity_spec, inverse_fits, inverse_matrix_spec, is_square,
    lemma_inverse_view, transpose_spec, Matrix,
};
use crate::object_id::{next_id, IdCounter, ObjectId};

verus! {

/// The parts of a shape that other shapes delegate to.
#[derive(Debug)]
pub struct BaseShape {
    casts_shadow: bool,
    id: ObjectId,
    t: Matrix,
    t_inverse: Matrix,
    t_inverse_transpose: Matrix,
    m: Material,
}

impl BaseShape {
    pub closed spec fn id_spec(&self) -> usize {
        self.id.id_spec()
    }

    pub closed spec fn casts_shadow_spec(&self) -> bool {
        self.casts_shadow
    }

    pub closed spec fn transformation_spec(&self) -> Seq<Seq<i64>> {
        self.t@
    }

    pub closed spec fn transformation_inverse_spec(&self) -> Seq<Seq<i64>> {
        self.t_inverse@
    }

    pub closed spec fn transformation_inverse_transpose_spec(&self) -> Seq<Seq<i64>> {
        self.t_inverse_transpose@
    }

    pub closed spec fn material_spec(&self) -> Material {
        self.m
    }

    /// A shape with a fresh identifier from `counter` that casts a shadow,
    /// is not transformed (every matrix is the identity) and has the
    /// default material.
    pub fn new(counter: &mut IdCounter) -> (s: BaseShape)
        ensures
            s.id_spec() == old(counter).peek(),
            final(counter).peek() == next_id(old(counter).peek()),
            s.casts_shadow_spec(),
            s.transformation_spec() == identity_spec(4),
            s.transformation_inverse_spec() == identity_spec(4),
            s.transformation_inverse_transpose_spec() == identity_spec(4),
            s.material_spec() == Material::default_spec(),
    {
        BaseShape {
            casts_shadow: true,
            id: ObjectId::new(counter),
            t: identity_4x4(),
            t_inverse: identity_4x4(),
            t_inverse_transpose: identity_4x4(),
            m: Material::default(),
        }
    }

    /// A copy of this shape with a fresh identifier from `counter`: copies
    /// of a shape are told apart by their identifiers.
    pub fn clone_with_new_id(&self, counter: &mut IdCounter) -> (s: BaseShape)
        ensures
            s.id_spec() == old(counter).peek(),
            final(counter).peek() == next_id(old(counter).peek()),
            s.casts_shadow_spec() == self.casts_shadow_spec(),
            s.transformation_spec() == self.transformation_spec(),
            s.transformation_inverse_spec() == self.transformation_inverse_spec(),
            s.transformation_inverse_transpose_spec() == self.transformation_inverse_transpose_spec(),
            s.material_spec() == self.material_spec(),
    {
        BaseShape {
            casts_shadow: self.casts_shadow,
            id: ObjectId::new(counter),
            t: copy_matrix(&self.t),
            t_inverse: copy_matrix(&self.t_inverse),
            t_inverse_transpose: copy_matrix(&self.t_inverse_transpose),
            m: self.m,
        }
    }

    /// The shape's identifier.
    pub fn get_unique_id(&self) -> (id: usize)
        ensures
            id == self.id_spec(),
    {
        self.id.get_id()
    }

    /// The transformation from the shape's space to the world.
    pub fn transformation(&self) -> (m: &Matrix)
        ensures
            m@ == self.transformation_spec(),
    {
        &self.t
    }

    /// Sets the transformation to `t`, keeping its inverse and the
    /// transpose of the inverse.
    pub fn set_transformation(&mut self, t: Matrix)
        requires
            t@.len() == 4,
            is_square(t@),
            inverse_fits(t@),
            det_spec(t@) != 0,
        ensures
            final(self).transformation_spec() == t@,
            final(self).transformation_inverse_spec() == inverse_matrix_spec(t@),
            final(self).transformation_inverse_transpose_spec() == transpose_spec(
                inverse_matrix_spec(t@),
            ),
            final(self).id_spec() == old(self).id_spec(),
            final(self).casts_shadow_spec() == old(self).casts_shadow_spec(),
            final(self).material_spec() == old(self).material_spec(),
    {
        let inverse = t.inverse();
        proof {
            lemma_inverse_view(inverse@, t@);
        }
        self.t_inverse_transpose = inverse.transpose();
        self.t_inverse = inverse;
        self.t = t;
    }

    /// The shape's material.
    pub fn material(&self) -> (m: &Material)
        ensures
            *m == self.material_spec(),
    {
        &self.m
    }

    /// Sets the material.
    pub fn set_material(&mut self, m: Material)
        ensures
            final(self).material_spec() == m,
            final(self).id_spec() == old(self).id_spec(),
            final(self).casts_shadow_spec() == old(self).casts_shadow_spec(),
            final(self).transformation_spec() == old(self).transformation_spec(),
            final(self).transformation_inverse_spec() == old(self).transformation_inverse_spec(),
            final(self).transformation_inverse_transpose_spec() == old(
                self,
            ).transformation_inverse_transpose_spec(),
    {
        self.m = m;
    }

    /// Whether the shape casts a shadow.
    pub fn casts_shadow(&self) -> (b: bool)
        ensures
            b == self.casts_shadow_spec(),
    {
        self.casts_shadow
    }

    /// Sets whether the shape casts a shadow.
    pub fn set_casts_shadow(&mut self, casts_shadow: bool)
        ensures
            final(self).casts_shadow_spec() == casts_shadow,
            final(self).id_spec() == old(self).id_spec(),
            final(self).material_spec() == old(self).material_spec(),
            final(self).transformation_spec() == old(self).transformation_spec(),
            final(self).transformation_inverse_spec() == old(self).transformation_inverse_spec(),
            final(self).transformation_inverse_transpose_spec() == old(
                self,
            ).transformation_inverse_transpose_spec(),
    {
        self.casts_shadow = casts_shadow;
    }

    /// The inverse of the transformation.
    pub fn transformation_inverse(&self) -> (m: &Matrix)
        ensures
            m@ == self.transformation_inverse_spec(),
    {
        &self.t_inverse
    }

    /// The transpose of the inverse of the transformation.
    pub fn transformation_inverse_transpose(&self) -> (m: &Matrix)
        ensures
            m@ == self.transformation_inverse_transpose_spec(),
    {
        &self.t_inverse_transpose
    }
}

/// A matrix with the same entries.
fn copy_matrix(m: &Matrix) -> (c: Matrix)
    ensures
        c@ == m@,
{
    let mut data: Vec<Vec<i64>> = Vec::new();
    let mut r: usize = 0;
    while r < m.data.len()
        invariant
            r <= m@.len(),
            data@.len() == r,
            forall|i: int| 0 <= i < r ==> #[trigger] data@[i]@ == m@[i],
        decreases m@.len() - r,
    {
        let mut row: Vec<i64> = Vec::new();
        let mut c: usize = 0;
        while c < m.data[r].len()
            invariant
                r < m@.len(),
                c <= m@[r as int].len(),
                row@ == m@[r as int].take(c as int),
            decreases m@[r as int].len() - c,
        {
            row.push(m.data[r][c]);
            c = c + 1;
        }
        data.push(row);
        r = r + 1;
    }
    let c = Matrix { data };
    assert(c@ =~= m@);
    c
}

} // verus!
