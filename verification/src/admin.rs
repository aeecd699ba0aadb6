//! The reserved administration schema: the storage keeps its records of
//! created databases in a database of this schema.

use vstd::prelude::*;

use crate::error::Error;
use crate::names::{CollectionName, CollectionNameView, SchemaName, ViewName};
use crate::schema::{Schema, Schematic};

verus! {

/// The name of the administration schema's one collection.
pub open spec fn admin_databases_collection() -> CollectionNameView {
    CollectionNameView { authority: "khonsulabs"@, name: "database"@ }
}

/// The administration schema's declaration: the database-records
/// collection, with a view from case-folded database name to schema.
/// Building it cannot fail: the collection is fresh and the view sits
/// on it.
pub fn admin_schematic() -> (r: Schematic)
    ensures
        r.wf(),
        r.collections_view() == seq![admin_databases_collection()],
        r.views_view().len() == 1,
        r.views_view()[0].name.collection == admin_databases_collection(),
        r.views_view()[0].name.name == "by-name"@,
        r.views_view()[0].version == 1,
{
    let mut schematic = Schematic::new();
    let databases = CollectionName::new("khonsulabs", "database");
    let defined = schematic.define_collection(databases);
    match defined {
        Ok(()) => {},
        Err(_) => {
            proof {
                assert(false);
            }
        },
    }
    proof {
        assert(schematic.collections_view() =~= seq![admin_databases_collection()]);
    }
    let by_name = ViewName::new(CollectionName::new("khonsulabs", "database"), "by-name");
    proof {
        assert(schematic.collections_view().contains(admin_databases_collection())) by {
            assert(schematic.collections_view()[0] == admin_databases_collection());
        }
    }
    let viewed = schematic.define_view(by_name, 1);
    match viewed {
        Ok(()) => {},
        Err(_) => {
            proof {
                assert(false);
            }
        },
    }
    schematic
}

/// The administration schema.
#[derive(Debug)]
pub struct Admin;

impl Schema for Admin {
    fn schema_name() -> SchemaName {
        SchemaName::new("khonsulabs", "bonsaidb-admin")
    }

    fn schematic() -> Result<Schematic, Error> {
        Ok(admin_schematic())
    }
}

} // verus!
