//! What is fixed of a definition before its body is looked at.

use crate::ast::{Definition, NameView};
use crate::file_definition::{FileID, FileLocation};
use crate::program_archive::{FunctionData, TemplateData};
use vstd::prelude::*;

verus! {

#[derive(Clone, Copy, Debug, PartialEq, Eq, Structural)]
pub enum DefinitionKind {
    Template,
    Function,
}

/// The name, the kind and the parameters of a definition and, for a
/// template, the signals and components it declares to the outside.
#[derive(Debug)]
pub struct ParameterData {
    pub name: String,
    pub kind: DefinitionKind,
    pub file_id: Option<FileID>,
    pub location: FileLocation,
    pub param_names: Vec<String>,
    pub input_signals: Vec<String>,
    pub output_signals: Vec<String>,
    pub components: Vec<String>,
}

/// `names` as names of version 0.
pub open spec fn source_names(names: Seq<String>) -> Seq<NameView> {
    Seq::new(names.len(), |i: int| (names[i]@, 0usize))
}

/// A copy of `names`.
pub fn clone_names(names: &Vec<String>) -> (r: Vec<String>)
    ensures
        r@.len() == names@.len(),
        forall|i: int| 0 <= i < names@.len() ==> r@[i]@ == names@[i]@,
        source_names(r@) == source_names(names@),
{
    let mut r: Vec<String> = Vec::new();
    let mut i: usize = 0;
    while i < names.len()
        invariant
            i <= names@.len(),
            r@.len() == i,
            forall|k: int| 0 <= k < i ==> r@[k]@ == names@[k]@,
        decreases names@.len() - i,
    {
        r.push(names[i].clone());
        i += 1;
    }
    r
}

impl ParameterData {
    /// The parameters, as names of version 0.
    pub open spec fn params(&self) -> Seq<NameView> {
        source_names(self.param_names@)
    }

    /// The input and the output signals, as names of version 0.
    pub open spec fn signals(&self) -> Seq<NameView> {
        source_names(self.input_signals@) + source_names(self.output_signals@)
    }

    /// This is what is fixed of the template `template`: its name, its
    /// place, its parameters, and the signals and components it declares to
    /// the outside.
    pub open spec fn is_of_template(&self, template: TemplateData) -> bool {
        &&& self.name@ == template.name@
        &&& self.kind == DefinitionKind::Template
        &&& self.file_id == template.file_id
        &&& self.location == template.param_location
        &&& self.params() == source_names(template.param_names@)
        &&& self.signals() == source_names(template.input_signals@) + source_names(
            template.output_signals@,
        )
        &&& source_names(self.input_signals@) == source_names(template.input_signals@)
        &&& source_names(self.output_signals@) == source_names(template.output_signals@)
        &&& source_names(self.components@) == source_names(template.components@)
    }

    /// This is what is fixed of the function `function`: its name, its
    /// place and its parameters. A function has no signals or components.
    pub open spec fn is_of_function(&self, function: FunctionData) -> bool {
        &&& self.name@ == function.name@
        &&& self.kind == DefinitionKind::Function
        &&& self.file_id == function.file_id
        &&& self.location == function.param_location
        &&& self.params() == source_names(function.param_names@)
        &&& self.signals() == Seq::<NameView>::empty()
        &&& self.input_signals@.len() == 0
        &&& self.output_signals@.len() == 0
        &&& self.components@.len() == 0
    }

    /// This is what is fixed of `definition`: its name, its kind, its place
    /// and its parameters. The signals of a template are those that its body
    /// declares.
    pub open spec fn is_of_definition(&self, definition: Definition) -> bool {
        &&& self.name@ == definition.name()@
        &&& self.kind == (if definition is Template {
            DefinitionKind::Template
        } else {
            DefinitionKind::Function
        })
        &&& self.file_id == definition.meta().file_id
        &&& self.location == definition.meta().location
        &&& self.params() == source_names(definition.args()@)
        &&& self.signals() == Seq::<NameView>::empty()
        &&& self.input_signals@.len() == 0
        &&& self.output_signals@.len() == 0
        &&& self.components@.len() == 0
    }

    /// What is fixed of the template `template`.
    pub fn from_template(template: &TemplateData) -> (r: ParameterData)
        ensures
            r.is_of_template(*template),
    {
        ParameterData {
            name: template.name.clone(),
            kind: DefinitionKind::Template,
            file_id: template.file_id,
            location: template.param_location,
            param_names: clone_names(&template.param_names),
            input_signals: clone_names(&template.input_signals),
            output_signals: clone_names(&template.output_signals),
            components: clone_names(&template.components),
        }
    }

    /// What is fixed of the function `function`.
    pub fn from_function(function: &FunctionData) -> (r: ParameterData)
        ensures
            r.is_of_function(*function),
    {
        let r = ParameterData {
            name: function.name.clone(),
            kind: DefinitionKind::Function,
            file_id: function.file_id,
            location: function.param_location,
            param_names: clone_names(&function.param_names),
            input_signals: Vec::new(),
            output_signals: Vec::new(),
            components: Vec::new(),
        };
        assert(r.signals() =~= Seq::<NameView>::empty());
        r
    }

    /// What is fixed of the definition `definition`. The signals of a
    /// template are those that its body declares.
    pub fn from_definition(definition: &Definition) -> (r: ParameterData)
        ensures
            r.is_of_definition(*definition),
    {
        let r = match definition {
            Definition::Template { meta, name, args, .. } => ParameterData {
                name: name.clone(),
                kind: DefinitionKind::Template,
                file_id: meta.file_id,
                location: meta.location,
                param_names: clone_names(args),
                input_signals: Vec::new(),
                output_signals: Vec::new(),
                components: Vec::new(),
            },
            Definition::Function { meta, name, args, .. } => ParameterData {
                name: name.clone(),
                kind: DefinitionKind::Function,
                file_id: meta.file_id,
                location: meta.location,
                param_names: clone_names(args),
                input_signals: Vec::new(),
                output_signals: Vec::new(),
                components: Vec::new(),
            },
        };
        assert(r.signals() =~= Seq::<NameView>::empty());
        r
    }
}

} // verus!
