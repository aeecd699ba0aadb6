//! Schemas: the compile-time declaration of a database's collections
//! and views, and the map/reduce interface a view implements.

use vstd::prelude::*;

use crate::error::Error;
use crate::names::{CollectionName, CollectionNameView, SchemaName, ViewName, ViewNameView};

verus! {

/// The declaration of one view: its stable name and the version of its
/// map/reduce logic.
#[derive(Debug)]
pub struct ViewDeclaration {
    /// The view's stable name.
    pub name: ViewName,
    /// The schema-declared version of the view logic.
    pub version: u64,
}

/// The mathematical value of a view declaration.
pub struct ViewDeclarationView {
    pub name: ViewNameView,
    pub version: u64,
}

impl View for ViewDeclaration {
    type V = ViewDeclarationView;

    open spec fn view(&self) -> ViewDeclarationView {
        ViewDeclarationView { name: self.name@, version: self.version }
    }
}

/// The collections and views a schema declares.
#[derive(Debug)]
pub struct Schematic {
    /// The declared collections.
    pub collections: Vec<CollectionName>,
    /// The declared views, each over one of the declared collections.
    pub views: Vec<ViewDeclaration>,
}

/// The mathematical values of a list of collection names.
pub open spec fn collection_names_view(ns: Seq<CollectionName>) -> Seq<CollectionNameView> {
    ns.map_values(|n: CollectionName| n@)
}

/// The mathematical values of a list of view declarations.
pub open spec fn view_declarations_view(vs: Seq<ViewDeclaration>) -> Seq<ViewDeclarationView> {
    vs.map_values(|v: ViewDeclaration| v@)
}

impl Schematic {
    /// The declared collection names as mathematical values.
    pub open spec fn collections_view(&self) -> Seq<CollectionNameView> {
        collection_names_view(self.collections@)
    }

    /// The declared views as mathematical values.
    pub open spec fn views_view(&self) -> Seq<ViewDeclarationView> {
        view_declarations_view(self.views@)
    }

    /// Well-formedness: collection names are distinct, and every view
    /// indexes a declared collection.
    pub open spec fn wf(&self) -> bool {
        &&& forall|i: int, j: int|
            0 <= i < j < self.collections_view().len() ==> #[trigger] self.collections_view()[i]
                != #[trigger] self.collections_view()[j]
        &&& forall|i: int|
            0 <= i < self.views_view().len() ==> self.collections_view().contains(
                (#[trigger] self.views_view()[i]).name.collection,
            )
    }

    /// An empty schematic.
    pub fn new() -> (r: Self)
        ensures
            r.wf(),
            r.collections_view() == Seq::<CollectionNameView>::empty(),
            r.views_view() == Seq::<ViewDeclarationView>::empty(),
    {
        let r = Schematic { collections: Vec::new(), views: Vec::new() };
        assert(r.collections_view() =~= Seq::<CollectionNameView>::empty());
        assert(r.views_view() =~= Seq::<ViewDeclarationView>::empty());
        r
    }

    /// Declares a collection; a name already declared is rejected.
    pub fn define_collection(&mut self, name: CollectionName) -> (r: Result<(), Error>)
        requires
            old(self).wf(),
        ensures
            final(self).wf(),
            match r {
                Ok(()) => {
                    &&& !old(self).collections_view().contains(name@)
                    &&& final(self).collections_view() == old(self).collections_view().push(name@)
                    &&& final(self).views_view() == old(self).views_view()
                },
                Err(e) => {
                    &&& old(self).collections_view().contains(name@)
                    &&& e@ == crate::error::ErrorView::AlreadyExists(
                        crate::error::AlreadyExistsView::Database { name: name.name@ },
                    )
                    &&& *final(self) == *old(self)
                },
            },
    {
        let mut i: usize = 0;
        while i < self.collections.len()
            invariant
                0 <= i <= self.collections.len(),
                *self == *old(self),
                old(self).wf(),
                forall|j: int| 0 <= j < i ==> #[trigger] self.collections_view()[j] != name@,
            decreases self.collections.len() - i,
        {
            if self.collections[i].same_as(&name) {
                assert(self.collections_view()[i as int] == name@);
                assert(self.collections_view().contains(name@));
                return Err(
                    Error::AlreadyExists(
                        crate::error::AlreadyExists::Database { name: name.name.clone() },
                    ),
                );
            }
            i += 1;
        }
        assert(!self.collections_view().contains(name@));
        self.collections.push(name);
        assert(self.collections_view() =~= old(self).collections_view().push(
            self.collections_view().last(),
        ));
        assert forall|a: int, b: int|
            0 <= a < b < self.collections_view().len() implies #[trigger] self.collections_view()[a]
            != #[trigger] self.collections_view()[b] by {
            if b < self.collections_view().len() - 1 {
                assert(self.collections_view()[a] == old(self).collections_view()[a]);
                assert(self.collections_view()[b] == old(self).collections_view()[b]);
            } else {
                assert(self.collections_view()[a] == old(self).collections_view()[a]);
                assert(old(self).collections_view().contains(old(self).collections_view()[a]));
            }
        }
        assert forall|i2: int|
            0 <= i2 < self.views_view().len() implies self.collections_view().contains(
            (#[trigger] self.views_view()[i2]).name.collection,
        ) by {
            assert(old(self).collections_view().contains(old(self).views_view()[i2].name.collection));
            let w = choose|w: int|
                0 <= w < old(self).collections_view().len() && old(self).collections_view()[w]
                    == old(self).views_view()[i2].name.collection;
            assert(self.collections_view()[w] == old(self).collections_view()[w]);
        }
        Ok(())
    }

    /// Declares a view over an already declared collection.
    pub fn define_view(&mut self, name: ViewName, version: u64) -> (r: Result<(), Error>)
        requires
            old(self).wf(),
        ensures
            final(self).wf(),
            match r {
                Ok(()) => {
                    &&& old(self).collections_view().contains(name@.collection)
                    &&& final(self).views_view() == old(self).views_view().push(
                        ViewDeclarationView { name: name@, version },
                    )
                    &&& final(self).collections_view() == old(self).collections_view()
                },
                Err(e) => {
                    &&& !old(self).collections_view().contains(name@.collection)
                    &&& e@ == crate::error::ErrorView::NotFound(
                        crate::error::NotFoundView::Collection { collection: name@.collection },
                    )
                    &&& *final(self) == *old(self)
                },
            },
    {
        let mut i: usize = 0;
        while i < self.collections.len()
            invariant
                0 <= i <= self.collections.len(),
                *self == *old(self),
                old(self).wf(),
                forall|j: int| 0 <= j < i ==> #[trigger] self.collections_view()[j] != name@.collection,
            decreases self.collections.len() - i,
        {
            if self.collections[i].same_as(&name.collection) {
                assert(self.collections_view()[i as int] == name@.collection);
                assert(self.collections_view().contains(name@.collection));
                let ghost pushed = ViewDeclarationView { name: name@, version };
                self.views.push(ViewDeclaration { name, version });
                assert(self.views_view() =~= old(self).views_view().push(pushed));
                assert forall|i2: int|
                    0 <= i2 < self.views_view().len() implies self.collections_view().contains(
                    (#[trigger] self.views_view()[i2]).name.collection,
                ) by {
                    if i2 < self.views_view().len() - 1 {
                        assert(self.views_view()[i2] == old(self).views_view()[i2]);
                    } else {
                        assert(self.views_view()[i2] == pushed);
                    }
                }
                return Ok(());
            }
            i += 1;
        }
        assert(!self.collections_view().contains(name@.collection));
        Err(Error::NotFound(crate::error::NotFound::Collection { collection: name.collection }))
    }

    /// The names of the views declared over `collection`.
    pub fn views_in_collection(&self, collection: &CollectionName) -> (r: Vec<ViewName>)
        ensures
            view_names_view(r@) == decl_names(
                self.views_view().filter(decl_in_collection(collection@)),
            ),
    {
        let ghost pred = decl_in_collection(collection@);
        let mut r: Vec<ViewName> = Vec::new();
        let mut i: usize = 0;
        proof {
            assert(self.views_view().take(0) =~= Seq::<ViewDeclarationView>::empty());
            assert(view_names_view(r@) =~= decl_names(self.views_view().take(0).filter(pred)));
        }
        while i < self.views.len()
            invariant
                0 <= i <= self.views.len(),
                pred == decl_in_collection(collection@),
                view_names_view(r@) == decl_names(self.views_view().take(i as int).filter(pred)),
            decreases self.views.len() - i,
        {
            proof {
                assert(self.views_view().take(i + 1) =~= self.views_view().take(i as int) + seq![
                    self.views_view()[i as int],
                ]);
                Seq::filter_distributes_over_add(
                    self.views_view().take(i as int),
                    seq![self.views_view()[i as int]],
                    pred,
                );
                reveal_with_fuel(Seq::filter, 2);
                assert(seq![self.views_view()[i as int]].drop_last() =~= Seq::<
                    ViewDeclarationView,
                >::empty());
            }
            if self.views[i].name.collection.same_as(collection) {
                let ghost r_prev = r@;
                r.push(self.views[i].name.duplicate());
                proof {
                    assert(pred(self.views_view()[i as int]));
                    assert(seq![self.views_view()[i as int]].filter(pred) =~= seq![
                        self.views_view()[i as int],
                    ]);
                    let f_prev = self.views_view().take(i as int).filter(pred);
                    let f_now = self.views_view().take(i + 1).filter(pred);
                    assert(f_now =~= f_prev.push(self.views_view()[i as int]));
                    assert(view_names_view(r_prev).len() == r_prev.len());
                    assert(decl_names(f_prev).len() == f_prev.len());
                    assert(view_names_view(r_prev) == decl_names(f_prev));
                    assert(f_prev.len() == r_prev.len());
                    assert(f_now.len() == r@.len());
                    assert(r@[r@.len() - 1]@ == self.views_view()[i as int].name);
                    assert forall|j: int|
                        0 <= j < r@.len() implies view_names_view(r@)[j] == decl_names(f_now)[j] by {
                        if j < r@.len() - 1 {
                            assert(view_names_view(r@)[j] == r@[j]@);
                            assert(r@[j] == r_prev[j]);
                            assert(view_names_view(r_prev)[j] == r_prev[j]@);
                            assert(view_names_view(r_prev) == decl_names(f_prev));
                            assert(decl_names(f_prev)[j] == f_prev[j].name);
                            assert(decl_names(f_now)[j] == f_now[j].name);
                            assert(f_now[j] == f_prev[j]);
                        } else {
                            assert(decl_names(f_now)[j] == f_now[j].name);
                            assert(f_now[j] == self.views_view()[i as int]);
                        }
                    }
                    assert(view_names_view(r@) =~= decl_names(f_now));
                }
            } else {
                proof {
                    assert(!pred(self.views_view()[i as int]));
                    assert(seq![self.views_view()[i as int]].filter(pred) =~= Seq::<
                        ViewDeclarationView,
                    >::empty());
                    assert(self.views_view().take(i + 1).filter(pred) =~= self.views_view().take(
                        i as int,
                    ).filter(pred));
                }
            }
            i += 1;
        }
        proof {
            assert(self.views_view().take(self.views_view().len() as int) =~= self.views_view());
        }
        r
    }
}

/// The predicate selecting the view declarations over one collection.
pub open spec fn decl_in_collection(c: CollectionNameView) -> spec_fn(ViewDeclarationView) -> bool {
    |v: ViewDeclarationView| v.name.collection == c
}

/// The names of a list of view declarations.
pub open spec fn decl_names(vs: Seq<ViewDeclarationView>) -> Seq<ViewNameView> {
    vs.map_values(|v: ViewDeclarationView| v.name)
}

/// The mathematical values of a list of view names.
pub open spec fn view_names_view(ns: Seq<ViewName>) -> Seq<ViewNameView> {
    ns.map_values(|n: ViewName| n@)
}

/// A schema: a named, fixed declaration of collections and views.
/// Implementations are supplied by the library's users; `schematic`
/// builds the declaration that storage and databases run on.
pub trait Schema: Sized {
    /// The schema's stable name.
    fn schema_name() -> SchemaName;

    /// The schema's collections and views.
    fn schematic() -> Result<Schematic, Error>;
}

/// The map/reduce logic of one view, as the library's users implement
/// it. The spec functions fix what the executable methods compute, so
/// the engine's contracts can speak about map output.
pub trait ViewSchema {
    /// The mathematical value of the declared version.
    spec fn version_spec(&self) -> u64;

    /// The mathematical map function: the `(key, value)` pairs the
    /// document with `id` and `contents` emits.
    spec fn map_spec(&self, id: u64, contents: Seq<u8>) -> Seq<(Seq<u8>, Seq<u8>)>;

    /// The mathematical reduce function.
    spec fn reduce_spec(&self, mappings: Seq<(Seq<u8>, Seq<u8>)>, rereduce: bool) -> Seq<u8>;

    /// The declared version of the view logic.
    fn version(&self) -> (v: u64)
        ensures
            v == self.version_spec(),
    ;

    /// Maps one document to its emitted `(key, value)` pairs.
    fn map(&self, id: u64, contents: &Vec<u8>) -> (r: Vec<(Vec<u8>, Vec<u8>)>)
        ensures
            crate::view::pairs_view(r@) == self.map_spec(id, contents@),
    ;

    /// Reduces a list of mappings to a single value; `rereduce` is true
    /// when the inputs are themselves outputs of earlier reductions.
    fn reduce(&self, mappings: &Vec<(Vec<u8>, Vec<u8>)>, rereduce: bool) -> (r: Vec<u8>)
        ensures
            r@ == self.reduce_spec(crate::view::pairs_view(mappings@), rereduce),
    ;
}

} // verus!
