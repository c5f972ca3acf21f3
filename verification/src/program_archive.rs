//! The definitions of a program, by name.

use crate::ast::Statement;
use crate::file_definition::{FileID, FileLocation};
use vstd::hash_map::StringHashMap;
use vstd::prelude::*;

verus! {

/// A template: its parameters, the signals it declares to the outside, and
/// its body.
pub struct TemplateData {
    pub name: String,
    pub file_id: Option<FileID>,
    pub param_location: FileLocation,
    pub param_names: Vec<String>,
    pub input_signals: Vec<String>,
    pub output_signals: Vec<String>,
    pub components: Vec<String>,
    pub body: Statement,
}

/// A function: its parameters and its body.
pub struct FunctionData {
    pub name: String,
    pub file_id: Option<FileID>,
    pub param_location: FileLocation,
    pub param_names: Vec<String>,
    pub body: Statement,
}

impl TemplateData {
    pub fn get_name(&self) -> (r: &String)
        ensures
            *r == self.name,
    {
        &self.name
    }

    pub fn get_body(&self) -> (r: &Statement)
        ensures
            *r == self.body,
    {
        &self.body
    }
}

impl FunctionData {
    pub fn get_name(&self) -> (r: &String)
        ensures
            *r == self.name,
    {
        &self.name
    }

    pub fn get_body(&self) -> (r: &Statement)
        ensures
            *r == self.body,
    {
        &self.body
    }
}

/// The templates and the functions of a program, each under its name.
pub struct ProgramArchive {
    pub templates: StringHashMap<TemplateData>,
    pub functions: StringHashMap<FunctionData>,
}

impl ProgramArchive {
    /// An archive without definitions.
    pub fn new() -> (r: ProgramArchive)
        ensures
            r.templates@ == Map::<Seq<char>, TemplateData>::empty(),
            r.functions@ == Map::<Seq<char>, FunctionData>::empty(),
    {
        ProgramArchive { templates: StringHashMap::new(), functions: StringHashMap::new() }
    }

    /// Files `template` under its name, in place of what was there.
    pub fn add_template(&mut self, template: TemplateData)
        ensures
            final(self).templates@ == old(self).templates@.insert(template.name@, template),
            final(self).functions@ == old(self).functions@,
    {
        let name = template.name.clone();
        self.templates.insert(name, template);
    }

    /// Files `function` under its name, in place of what was there.
    pub fn add_function(&mut self, function: FunctionData)
        ensures
            final(self).functions@ == old(self).functions@.insert(function.name@, function),
            final(self).templates@ == old(self).templates@,
    {
        let name = function.name.clone();
        self.functions.insert(name, function);
    }
}

} // verus!
