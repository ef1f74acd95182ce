//! Materials: those made of a base and an extension, and those that a
//! node refers to in a store that all nodes share.

use crate::sink::OpacityAsset;
use crate::sink::OpacityQuery;
use std::marker::PhantomData;
use vstd::prelude::*;

verus! {

/// The extension of a material whose base is an `A`, where the two take an
/// effective opacity together.
pub trait OpacityMaterialExtension<A>: Sized {
    /// Base and extension after they took `opacity`.
    spec fn extended(base: A, extension: Self, opacity: i64) -> (A, Self);

    /// Taking the same opacity twice in a row leaves base and extension as
    /// taking it once.
    proof fn lemma_extended_twice(base: A, extension: Self, opacity: i64)
        ensures
            Self::extended(
                Self::extended(base, extension, opacity).0,
                Self::extended(base, extension, opacity).1,
                opacity,
            ) == Self::extended(base, extension, opacity),
    ;

    /// What base and extension take overwrites what they took earlier:
    /// with another opacity taken in between, the earlier taking makes no
    /// difference.
    proof fn lemma_extended_over(base: A, extension: Self, opacity: i64, between: i64)
        ensures
            Self::extended(
                Self::extended(
                    Self::extended(base, extension, opacity).0,
                    Self::extended(base, extension, opacity).1,
                    between,
                ).0,
                Self::extended(
                    Self::extended(base, extension, opacity).0,
                    Self::extended(base, extension, opacity).1,
                    between,
                ).1,
                opacity,
            ) == Self::extended(
                Self::extended(base, extension, between).0,
                Self::extended(base, extension, between).1,
                opacity,
            ),
    ;

    /// Writes `opacity` into base and extension.
    fn apply_opacity(a: &mut A, b: &mut Self, opacity: i64)
        ensures
            (*final(a), *final(b)) == Self::extended(*old(a), *old(b), opacity),
    ;
}

/// A material in two parts.
#[derive(Debug)]
pub struct ExtendedMaterial<A, T> {
    /// The material that is extended.
    pub base: A,
    /// What is added to it.
    pub extension: T,
}

impl<A, T: OpacityMaterialExtension<A>> OpacityAsset for ExtendedMaterial<A, T> {
    open spec fn with_opacity(self, opacity: i64) -> ExtendedMaterial<A, T> {
        ExtendedMaterial {
            base: T::extended(self.base, self.extension, opacity).0,
            extension: T::extended(self.base, self.extension, opacity).1,
        }
    }

    proof fn lemma_taken_twice(self, opacity: i64) {
        T::lemma_extended_twice(self.base, self.extension, opacity);
    }

    proof fn lemma_taken_over(self, opacity: i64, between: i64) {
        T::lemma_extended_over(self.base, self.extension, opacity, between);
    }

    fn apply_opacity(&mut self, opacity: i64) {
        T::apply_opacity(&mut self.base, &mut self.extension, opacity);
    }
}

/// An extension with nothing of its own to update: the opacity goes to the
/// base.
#[derive(Debug, Clone, Copy, PartialEq, Eq)]
pub struct PlainExtension;

impl<A: OpacityAsset> OpacityMaterialExtension<A> for PlainExtension {
    open spec fn extended(base: A, extension: PlainExtension, opacity: i64) -> (A, PlainExtension) {
        (base.with_opacity(opacity), extension)
    }

    proof fn lemma_extended_twice(base: A, extension: PlainExtension, opacity: i64) {
        base.lemma_taken_twice(opacity);
    }

    proof fn lemma_extended_over(
        base: A,
        extension: PlainExtension,
        opacity: i64,
        between: i64,
    ) {
        base.lemma_taken_over(opacity, between);
    }

    fn apply_opacity(a: &mut A, b: &mut PlainExtension, opacity: i64) {
        a.apply_opacity(opacity);
    }
}

/// The place of a material in a store, as a node holds it. The store is
/// the context that the nodes share: a list of slots, of which some may be
/// empty.
#[derive(Debug)]
pub struct MeshMaterial<T> {
    /// The slot.
    pub id: usize,
    /// The kind of material that the slot holds.
    pub marker: PhantomData<T>,
}

impl<T> MeshMaterial<T> {
    /// Refers to the slot `id`.
    pub fn new(id: usize) -> (r: MeshMaterial<T>)
        ensures
            r.id == id,
    {
        MeshMaterial { id, marker: PhantomData }
    }
}

impl<T: OpacityAsset> OpacityQuery for MeshMaterial<T> {
    type Cx = Vec<Option<T>>;

    type CxModel = Seq<Option<T>>;

    open spec fn model(cx: Vec<Option<T>>) -> Seq<Option<T>> {
        cx@
    }

    open spec fn applied(self, cx: Seq<Option<T>>, opacity: i64) -> (
        MeshMaterial<T>,
        Seq<Option<T>>,
    ) {
        if self.id < cx.len() && cx[self.id as int] is Some {
            (
                self,
                cx.update(
                    self.id as int,
                    Some(cx[self.id as int].unwrap().with_opacity(opacity)),
                ),
            )
        } else {
            (self, cx)
        }
    }

    proof fn lemma_applied_twice(self, cx: Seq<Option<T>>, opacity: i64) {
        if self.id < cx.len() && cx[self.id as int] is Some {
            let material = cx[self.id as int].unwrap();
            material.lemma_taken_twice(opacity);
        }
    }

    proof fn lemma_attribute_ignores_context(
        self,
        cx: Seq<Option<T>>,
        other: Seq<Option<T>>,
        opacity: i64,
    ) {
    }

    proof fn lemma_context_taken_again(
        self,
        before: Seq<Option<T>>,
        cx: Seq<Option<T>>,
        opacity: i64,
    ) {
    }

    proof fn lemma_context_overwritten(
        self,
        opacity: i64,
        other: MeshMaterial<T>,
        between: i64,
        cx: Seq<Option<T>>,
    ) {
        let first = self.applied(cx, opacity).1;
        let with = self.applied(other.applied(first, between).1, opacity).1;
        let without = self.applied(other.applied(cx, between).1, opacity).1;
        if self.id < cx.len() && cx[self.id as int] is Some {
            let material = cx[self.id as int].unwrap();
            material.lemma_taken_twice(opacity);
            material.lemma_taken_over(opacity, between);
        }
        assert(with =~= without);
    }

    fn apply_opacity(this: &mut MeshMaterial<T>, cx: &mut Vec<Option<T>>, opacity: i64) {
        if this.id < cx.len() {
            match &mut cx[this.id] {
                Some(material) => {
                    material.apply_opacity(opacity);
                },
                None => {},
            }
        }
    }
}

} // verus!
