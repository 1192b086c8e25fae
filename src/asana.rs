//! Source task records: a forest of tasks with memberships, dependencies
//! and subtasks.
use vstd::prelude::*;

use crate::time::{Date, Timestamp};

verus! {

/// A named object of the source system (project, section, tag, user).
#[derive(Clone, Debug)]
pub struct Reference {
    pub gid: String,
    pub resource_type: String,
    pub name: String,
}

/// Reference to another source task.
#[derive(Clone, Debug)]
pub struct TaskReference {
    pub gid: String,
    pub resource_type: String,
}

/// Placement of a task: a project and a section of it.
#[derive(Clone, Debug)]
pub struct TaskMembership {
    pub project: Reference,
    pub section: Reference,
}

/// Identifier and data of a task in a third system.
#[derive(Clone, Debug)]
pub struct TaskExternal {
    pub gid: String,
    pub data: String,
}

/// A like given to a task.
#[derive(Clone, Debug)]
pub struct Like {
    pub gid: String,
    pub user: Reference,
}

/// Side of a custom field's value on which its label stands.
#[derive(Clone, Copy, Debug, PartialEq, Eq, Structural)]
pub enum CustomLabelPosition {
    Prefix,
    Suffix,
}

/// Display format of a custom field.
#[derive(Clone, Copy, Debug, PartialEq, Eq, Structural)]
pub enum CustomFieldFormat {
    Currency,
    Identifier,
    Percentage,
    Custom,
    NoFormat,
}

/// One option of an enumerated custom field.
#[derive(Clone, Debug)]
pub struct EnumOption {
    pub gid: String,
    pub resource_type: String,
    pub color: String,
    pub enabled: bool,
    pub name: String,
}

/// A source task with what the conversion reads of it.
#[derive(Debug)]
pub struct Task {
    pub gid: String,
    pub name: String,
    pub completed: bool,
    pub completed_at: Option<Timestamp>,
    pub created_at: Timestamp,
    pub dependencies: Option<Vec<TaskReference>>,
    pub due_on: Option<Date>,
    pub memberships: Vec<TaskMembership>,
    pub start_on: Option<Timestamp>,
    pub tags: Vec<Reference>,
    pub subtasks: Option<Vec<Task>>,
}

} // verus!
