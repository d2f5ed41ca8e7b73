//! What messages say: each names what it is about.

use vstd::prelude::*;
use crate::commands::{despawn_noop, template_missing};
use crate::component::{ComponentId, ComponentSerdeError, serde_error_text};
use crate::dyn_query::{DynQueryError, dyn_error_text, undeclared_write};
use crate::entity::Entity;
use crate::error::{ErrorMode, Severity, mode_text};
use crate::query::name_of;
use crate::registry::{InfoView, ambiguous_text, unknown_text};
use crate::text::decimal;
use crate::world::insert_dropped;

verus! {

/// Errors of serialization say which way it failed, and why or what was expected.
pub proof fn law_serde_errors_say_why(why: String, expected: &'static str)
    ensures
        serde_error_text(ComponentSerdeError::SerializationFailed(why)) == "serialize failed: "@
            + why@,
        serde_error_text(ComponentSerdeError::DeserializationFailed(why)) == "deserialize failed: "@
            + why@,
        serde_error_text(ComponentSerdeError::FormatMismatch { expected })
            == "format mismatch, expected "@ + expected@,
{
}

/// Errors of dynamic queries name the component.
pub proof fn law_query_errors_name_the_component(name: String, id: ComponentId)
    ensures
        dyn_error_text(DynQueryError::UnknownComponent(name))
            == "dynamic query: unknown component name '"@ + name@ + "'"@,
        dyn_error_text(DynQueryError::AliasedWrite(id)) == "dynamic query: component id "@ + (
        "ComponentId("@ + decimal(id.0 as nat) + ")"@)
            + " is written more than once — that would alias one row's data (write each component at most once)"@,
{
}

/// Errors of names give the name, and where two types share it both of their full names.
pub proof fn law_name_errors_give_the_names(name: Seq<char>, first: Seq<char>, second: Seq<char>)
    ensures
        unknown_text(name) == "component '"@ + name + "' is not registered"@,
        ambiguous_text(name, first, second) == "component name '"@ + name + "' is ambiguous ('"@
            + first + "' vs '"@ + second + "') — use the full type name"@,
{
}

/// Modes have names of their own.
pub proof fn law_modes_are_named(handle: u64)
    ensures
        mode_text(ErrorMode::Warn) == "Warn"@,
        mode_text(ErrorMode::Panic) == "Panic"@,
        mode_text(ErrorMode::Silent) == "Silent"@,
        mode_text(ErrorMode::Custom(handle)) == "Custom(..)"@,
{
}

/// Anomalies are warnings that name the operation, and the entity and the component where there is
/// one.
pub proof fn law_anomalies_name_what_they_are_about(
    infos: Seq<InfoView>,
    e: Entity,
    id: u32,
    op: Seq<char>,
    name: Seq<char>,
)
    requires
        id < infos.len(),
    ensures
        insert_dropped(infos, e, id).severity == Severity::Warn,
        insert_dropped(infos, e, id).op == "World::insert"@,
        insert_dropped(infos, e, id).entity == Some(e),
        insert_dropped(infos, e, id).component == Some(infos[id as int].name),
        despawn_noop(e).severity == Severity::Warn,
        despawn_noop(e).op == "Commands::despawn"@,
        despawn_noop(e).entity == Some(e),
        despawn_noop(e).component is None,
        template_missing(name).severity == Severity::Warn,
        template_missing(name).op == "Commands::spawn_template"@,
        template_missing(name).entity is None,
        template_missing(name).detail == "no template registered under name \""@ + name
            + "\"; nothing spawned"@,
        undeclared_write(infos, op, e, id).severity == Severity::Warn,
        undeclared_write(infos, op, e, id).op == op,
        undeclared_write(infos, op, e, id).entity == Some(e),
        undeclared_write(infos, op, e, id).component == Some(infos[id as int].name),
        name_of(infos, id) == infos[id as int].name,
{
}

} // verus!
