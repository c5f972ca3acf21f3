//! The control-flow graph of a definition, and how it is built.

use crate::ast::{Definition, NameView, Statement, VariableName, VariableType};
use crate::basic_block::{BasicBlock, graph_well_formed};
use crate::cfg_impl::build_basic_blocks;
use crate::cfg_model::{
    blocks_match, blocks_names_within, BuilderModel, built, declarations_in, fresh_block,
    lemma_visited_records, Recorded, recorded_names,
};
use crate::declaration_map::{
    DeclarationMap, first_declarations, lemma_first_declarations_of_distinct, names_differ,
};
use crate::dominator_tree::{DominatorTree, graph_of};
use crate::environment::{declared_in, IREnvironment, Scope};
use crate::errors::CFGError;
use crate::ir;
use crate::ir::Index;
use crate::lowering::lowered_declaration;
use crate::parameter_data::{ParameterData, source_names};
use crate::program_archive::{FunctionData, TemplateData};
use crate::report::{MessageCategory, ReportCollection};
use crate::unique_vars::{
    ensure_unique_variables, first_state, has_error, kept_declarations, lemma_declared_names_differ,
    lemma_unique_body_comes_out_the_same, lemma_unique_body_is_kept, local_declarations,
    renamed_statement, report_of, same_statement, signal_declarations, state_after,
    unique_variables_ensured,
};
use crate::value_meta::ValueKnowledge;
use vstd::prelude::*;

verus! {

/// The scopes after each of the first `n` parameters was declared as a
/// variable in the one scope that is open, or the error if a parameter
/// repeats an earlier one.
pub open spec fn parameter_scopes(params: Seq<NameView>, n: nat) -> Result<Seq<Scope>, CFGError>
    decreases n,
{
    if n == 0 || n > params.len() {
        Ok(seq![Seq::empty()])
    } else {
        match parameter_scopes(params, (n - 1) as nat) {
            Ok(scopes) => declared_in(scopes, params[n - 1], VariableType::Var),
            Err(error) => Err(error),
        }
    }
}

/// Once a parameter repeats an earlier one, the parameters cannot be
/// declared.
pub proof fn lemma_parameter_scopes_fail(params: Seq<NameView>, k: nat, n: nat)
    requires
        parameter_scopes(params, k) is Err,
        k <= n <= params.len(),
    ensures
        parameter_scopes(params, n) == parameter_scopes(params, k),
    decreases n,
{
    if k < n {
        lemma_parameter_scopes_fail(params, k, (n - 1) as nat);
    }
}

/// `declaration` is what the environment records of the parameter `name`
/// of a definition with `param_data`: a variable without dimensions, at the
/// place of the definition.
pub open spec fn parameter_declaration(
    param_data: ParameterData,
    name: NameView,
    declaration: ir::Declaration,
) -> bool {
    &&& declaration.name@ == name
    &&& declaration.xtype == VariableType::Var
    &&& declaration.dimensions@.len() == 0
    &&& declaration.meta.location == param_data.location
    &&& declaration.meta.file_id == param_data.file_id
    &&& declaration.meta.type_knowledge is None
    &&& declaration.meta.value_knowledge@ is None
}

/// `all` are the declarations of a definition with `param_data` whose body
/// recorded `recorded`: first one of each parameter, then the lowered form of
/// each declaration of the body.
pub open spec fn declarations_of(
    param_data: ParameterData,
    recorded: Seq<Recorded>,
    all: Seq<ir::Declaration>,
) -> bool {
    let params = param_data.params();
    &&& all.len() == params.len() + recorded.len()
    &&& forall|i: int|
        0 <= i < params.len() ==> parameter_declaration(param_data, params[i], #[trigger] all[i])
    &&& forall|k: int|
        0 <= k < recorded.len() ==> lowered_declaration(
            (#[trigger] recorded[k]).stmt,
            recorded[k].scopes,
            all[params.len() + k],
        )
}

/// The environment in which the body of a definition is lowered: one scope,
/// which declares each parameter as a variable.
pub fn parameter_environment(param_data: &ParameterData) -> (r: Result<IREnvironment, CFGError>)
    ensures
        match parameter_scopes(param_data.params(), param_data.params().len()) {
            Ok(scopes) => {
                &&& r matches Ok(env)
                &&& env.well_formed()
                &&& env.scopes() == scopes
                &&& declarations_of(*param_data, Seq::empty(), env.declarations())
            },
            Err(error) => r matches Err(e) && e == error,
        },
{
    let mut env = IREnvironment::new();
    let names = &param_data.param_names;
    let ghost params = param_data.params();
    let mut i: usize = 0;
    while i < names.len()
        invariant
            i <= names@.len(),
            names@ == param_data.param_names@,
            params == param_data.params(),
            env.well_formed(),
            parameter_scopes(params, i as nat) == Ok::<Seq<Scope>, CFGError>(env.scopes()),
            env.declarations().len() == i,
            forall|k: int|
                0 <= k < i ==> parameter_declaration(
                    *param_data,
                    params[k],
                    #[trigger] env.declarations()[k],
                ),
        decreases names@.len() - i,
    {
        let declaration = ir::Declaration {
            meta: ir::Meta {
                location: param_data.location,
                file_id: param_data.file_id,
                type_knowledge: None,
                value_knowledge: ValueKnowledge::new(),
            },
            name: VariableName::from_name(names[i].clone()),
            xtype: VariableType::Var,
            dimensions: Vec::new(),
        };
        match env.add_declaration(declaration) {
            Ok(_) => {},
            Err(error) => {
                proof {
                    lemma_parameter_scopes_fail(params, (i + 1) as nat, params.len());
                }
                return Err(error);
            },
        }
        i += 1;
    }
    Ok(env)
}

/// In a well-formed graph every edge leads to a block of the graph.
pub proof fn lemma_graph_is_closed(blocks: Seq<BasicBlock>)
    requires
        graph_well_formed(blocks),
    ensures
        crate::dominance::graph_closed(graph_of(blocks)),
{
    let g = graph_of(blocks);
    assert forall|i: int, k: int| 0 <= i < g.len() && 0 <= k < g[i].len() implies (
    #[trigger] g[i][k]) < g.len() by {
        assert(blocks[i].successors().contains(g[i][k]));
    }
}

/// The control-flow graph of a definition.
#[derive(Debug)]
pub struct Cfg {
    name: String,
    param_data: ParameterData,
    declarations: DeclarationMap,
    basic_blocks: Vec<BasicBlock>,
    dominator_tree: DominatorTree,
}

impl Cfg {
    /// The name of the definition.
    pub closed spec fn name(&self) -> Seq<char> {
        self.name@
    }

    pub closed spec fn param_data(&self) -> ParameterData {
        self.param_data
    }

    pub closed spec fn declarations(&self) -> DeclarationMap {
        self.declarations
    }

    /// The basic blocks, the entry first.
    pub closed spec fn blocks(&self) -> Seq<BasicBlock> {
        self.basic_blocks@
    }

    pub closed spec fn dominator_tree(&self) -> DominatorTree {
        self.dominator_tree
    }

    /// The invariant of a control-flow graph: the blocks form a well-formed
    /// graph, no name is declared twice, every variable that a statement
    /// mentions is declared, and the dominator tree is that of the blocks.
    pub open spec fn well_formed(&self) -> bool {
        &&& graph_well_formed(self.blocks())
        &&& self.declarations().well_formed()
        &&& blocks_names_within(self.blocks(), self.declarations().names())
        &&& self.dominator_tree().describes(graph_of(self.blocks()))
    }

    /// The graph with these parts, which have to fit together.
    pub fn new(
        name: String,
        param_data: ParameterData,
        declarations: DeclarationMap,
        basic_blocks: Vec<BasicBlock>,
        dominator_tree: DominatorTree,
    ) -> (r: Cfg)
        requires
            graph_well_formed(basic_blocks@),
            declarations.well_formed(),
            blocks_names_within(basic_blocks@, declarations.names()),
            dominator_tree.describes(graph_of(basic_blocks@)),
        ensures
            r.well_formed(),
            r.name() == name@,
            r.param_data() == param_data,
            r.declarations() == declarations,
            r.blocks() == basic_blocks@,
            r.dominator_tree() == dominator_tree,
    {
        Cfg { name, param_data, declarations, basic_blocks, dominator_tree }
    }

    pub fn get_name(&self) -> (r: &String)
        ensures
            r@ == self.name(),
    {
        &self.name
    }

    pub fn get_parameters(&self) -> (r: &ParameterData)
        ensures
            *r == self.param_data(),
    {
        &self.param_data
    }

    pub fn get_declarations(&self) -> (r: &DeclarationMap)
        ensures
            *r == self.declarations(),
    {
        &self.declarations
    }

    /// The basic blocks in the order of their indices.
    pub fn get_basic_blocks(&self) -> (r: &Vec<BasicBlock>)
        ensures
            r@ == self.blocks(),
    {
        &self.basic_blocks
    }

    pub fn get_dominator_tree(&self) -> (r: &DominatorTree)
        ensures
            *r == self.dominator_tree(),
    {
        &self.dominator_tree
    }

    /// The number of basic blocks.
    pub fn len(&self) -> (r: usize)
        ensures
            r == self.blocks().len(),
    {
        self.basic_blocks.len()
    }

    /// The entry block.
    pub fn get_entry_block(&self) -> (r: &BasicBlock)
        requires
            self.well_formed(),
        ensures
            *r == self.blocks()[0],
    {
        &self.basic_blocks[0]
    }

    /// The block at `index`, if there is one.
    pub fn get_basic_block(&self, index: Index) -> (r: Option<&BasicBlock>)
        ensures
            match r {
                Some(block) => index < self.blocks().len() && *block == self.blocks()[index as int],
                None => index >= self.blocks().len(),
            },
    {
        if index < self.basic_blocks.len() {
            Some(&self.basic_blocks[index])
        } else {
            None
        }
    }

    /// The immediate dominator of the block at `index`, if it has one.
    pub fn get_immediate_dominator(&self, index: Index) -> (r: Option<Index>)
        requires
            self.well_formed(),
            index < self.blocks().len(),
        ensures
            r == self.dominator_tree().idoms()[index as int],
    {
        self.dominator_tree.get_immediate_dominator(index)
    }

    /// The dominance frontier of the block at `index`.
    pub fn get_dominance_frontier(&self, index: Index) -> (r: &Vec<Index>)
        requires
            self.well_formed(),
            index < self.blocks().len(),
        ensures
            r@ == self.dominator_tree().frontiers()[index as int],
    {
        self.dominator_tree.get_dominance_frontier(index)
    }

    /// What building the graph of a definition with the body `body` and
    /// with `param_data` owes.
    ///
    /// Where the uniqueness pass finds an error the definition fails with
    /// `ShadowingSignal`. Else it fails as declaring the parameters or
    /// building the blocks of the rewritten body fails. Else there is a
    /// well-formed graph whose blocks are those of the rewritten body `out`,
    /// with the reports of the pass.
    pub open spec fn built_from(
        name: Seq<char>,
        param_data: ParameterData,
        body: Statement,
        r: Result<(Cfg, ReportCollection), CFGError>,
    ) -> bool {
        let start = first_state(param_data, body);
        let findings = state_after(body, start).findings;
        if has_error(findings) {
            r matches Err(e) && e == CFGError::ShadowingSignal
        } else {
            match parameter_scopes(param_data.params(), param_data.params().len()) {
                Err(error) => r matches Err(e) && e == error,
                Ok(scopes) => exists|out: Statement| #[trigger]
                    Self::built_from_renamed(name, param_data, body, out, scopes, r),
            }
        }
    }

    /// What building the graph owes where `out` is the rewritten body and
    /// `scopes` declare the parameters: `out` is what the uniqueness pass
    /// makes of `body`, and the definition fails as building the blocks of
    /// `out` fails, or else has the graph of `out`.
    pub open spec fn built_from_renamed(
        name: Seq<char>,
        param_data: ParameterData,
        body: Statement,
        out: Statement,
        scopes: Seq<Scope>,
        r: Result<(Cfg, ReportCollection), CFGError>,
    ) -> bool {
        &&& renamed_statement(
            body,
            first_state(param_data, body),
            out,
        )
        &&& match built(out, scopes) {
            Err(error) => r matches Err(e) && e == error,
            Ok(m) => {
                &&& r matches Ok(pair)
                &&& unique_variables_ensured(body, param_data, out, pair.1@)
                &&& pair.0.name() == name
                &&& pair.0.param_data() == param_data
                &&& blocks_match(pair.0.blocks(), m.blocks)
                &&& exists|all: Seq<ir::Declaration>|
                    #[trigger] declarations_of(param_data, m.recorded, all)
                        && pair.0.declarations().entries() == first_declarations(all)
                &&& pair.0.well_formed()
            },
        }
    }

    /// A definition whose variables are unique already is built as it is.
    ///
    /// Where the parameters, the signals and the variables that `body`
    /// declares have names of which no two are the same, the uniqueness pass
    /// finds no error, the body that the blocks are built of is `body`
    /// itself, up to how its strings are stored, and a graph comes without
    /// reports. So the definition fails only as declaring its parameters or
    /// building the blocks of its own body fails.
    pub proof fn lemma_unique_body_is_built_as_it_is(
        name: Seq<char>,
        param_data: ParameterData,
        body: Statement,
        r: Result<(Cfg, ReportCollection), CFGError>,
    )
        requires
            Self::built_from(name, param_data, body, r),
            (first_state(param_data, body).declared + local_declarations(
                body,
                Seq::empty(),
            )).no_duplicates(),
        ensures
            !has_error(
                state_after(
                    body,
                    first_state(param_data, body),
                ).findings,
            ),
            r matches Ok(pair) ==> pair.1@.len() == 0,
            match parameter_scopes(param_data.params(), param_data.params().len()) {
                Ok(scopes) => exists|out: Statement|
                    same_statement(body, out) && #[trigger] Self::built_from_renamed(
                        name,
                        param_data,
                        body,
                        out,
                        scopes,
                        r,
                    ),
                Err(error) => r matches Err(e) && e == error,
            },
    {
        let signals = param_data.signals() + signal_declarations(body);
        let others = source_names(param_data.components@) + kept_declarations(body);
        lemma_unique_body_is_kept(body, param_data.params(), signals, others);
        match parameter_scopes(param_data.params(), param_data.params().len()) {
            Ok(scopes) => {
                let out = choose|out: Statement| #[trigger]
                    Self::built_from_renamed(name, param_data, body, out, scopes, r);
                lemma_unique_body_comes_out_the_same(
                    body,
                    param_data.params(),
                    signals,
                    others,
                    out,
                );
                assert(same_statement(body, out) && Self::built_from_renamed(
                    name,
                    param_data,
                    body,
                    out,
                    scopes,
                    r,
                ));
            },
            Err(_) => {},
        }
    }

    /// Every declaration has a key of its own in the declaration map of a
    /// graph that was built, unless a signal, component or bus is declared
    /// under a name that is taken.
    ///
    /// The uniqueness pass sees to the names of the variables; signals,
    /// components and buses keep the names they were declared with. So where
    /// no parameter, signal, component or bus of `body` has the name of
    /// another, the declaration map of the graph holds, one for one and in
    /// this order, a declaration for each parameter and for each declaration
    /// of the rewritten body `out`.
    pub proof fn lemma_each_declaration_has_its_key(
        name: Seq<char>,
        param_data: ParameterData,
        body: Statement,
        out: Statement,
        scopes: Seq<Scope>,
        r: Result<(Cfg, ReportCollection), CFGError>,
    )
        requires
            Self::built_from_renamed(name, param_data, body, out, scopes, r),
            r is Ok,
            !has_error(state_after(body, first_state(param_data, body)).findings),
            (param_data.params() + signal_declarations(body) + kept_declarations(
                body,
            )).no_duplicates(),
        ensures
            r->Ok_0.0.declarations().entries().len() == param_data.params().len()
                + declarations_in(out).len(),
            forall|k: int|
                0 <= k < r->Ok_0.0.declarations().entries().len() ==> (
                #[trigger] r->Ok_0.0.declarations().entries()[k]).name@ == (param_data.params()
                    + declarations_in(out))[k],
    {
        let cfg = r->Ok_0.0;
        let m = built(out, scopes)->Ok_0;
        let params = param_data.params();
        let names = params + declarations_in(out);
        lemma_declared_names_differ(body, param_data, out, r->Ok_0.1@);
        let start = BuilderModel {
            scopes,
            recorded: Seq::empty(),
            blocks: seq![fresh_block(out.meta())],
        };
        lemma_visited_records(out, start);
        assert(recorded_names(start.recorded) + declarations_in(out) =~= declarations_in(out));
        let all = choose|all: Seq<ir::Declaration>|
            #[trigger] declarations_of(param_data, m.recorded, all) && cfg.declarations().entries()
                == first_declarations(all);
        assert forall|k: int| 0 <= k < all.len() implies (#[trigger] all[k]).name@ == names[k] by {
            if k >= params.len() {
                let at = k - params.len();
                assert(lowered_declaration(m.recorded[at].stmt, m.recorded[at].scopes, all[k]));
                assert(recorded_names(m.recorded)[at] == m.recorded[at].stmt->name@);
            }
        }
        assert(names_differ(all)) by {
            assert forall|i: int, j: int|
                0 <= i < all.len() && 0 <= j < all.len() && i != j implies (#[trigger] all[i]).name@
                != (#[trigger] all[j]).name@ by {
                assert(names[i] != names[j]);
            }
        }
        lemma_first_declarations_of_distinct(all);
    }

    /// Builds the graph of a definition from its name, what is fixed of it,
    /// and its body.
    #[verifier::loop_isolation(false)]
    fn build(name: String, param_data: ParameterData, body: &Statement) -> (r: Result<
        (Cfg, ReportCollection),
        CFGError,
    >)
        requires
            *body is Block,
        ensures
            Self::built_from(name@, param_data, *body, r),
    {
        let (out, reports) = ensure_unique_variables(body, &param_data);
        let ghost start = first_state(param_data, *body);
        let ghost findings = state_after(*body, start).findings;
        let mut i: usize = 0;
        while i < reports.len()
            invariant
                i <= reports@.len(),
                reports@.len() == findings.len(),
                forall|k: int|
                    0 <= k < reports@.len() ==> report_of(findings[k], #[trigger] reports@[k]),
                forall|k: int|
                    0 <= k < i ==> (#[trigger] findings[k]).category != MessageCategory::Error,
            decreases reports@.len() - i,
        {
            let is_error = match reports[i].category() {
                MessageCategory::Error => true,
                _ => false,
            };
            if is_error {
                return Err(CFGError::ShadowingSignal);
            }
            i += 1;
        }
        let mut env = parameter_environment(&param_data)?;
        let ghost scopes = env.scopes();
        let ghost before_build = env.declarations();
        let basic_blocks = match build_basic_blocks(&out, &mut env) {
            Ok(basic_blocks) => basic_blocks,
            Err(error) => {
                let r = Err(error);
                assert(Self::built_from_renamed(name@, param_data, *body, out, scopes, r));
                return r;
            },
        };
        proof {
            lemma_graph_is_closed(basic_blocks@);
        }
        let dominator_tree = match DominatorTree::new(&basic_blocks) {
            Ok(dominator_tree) => dominator_tree,
            Err(error) => {
                return Err(error);
            },
        };
        let ghost declared = env.declarations();
        proof {
            let m = built(out, scopes)->Ok_0;
            let params = param_data.params();
            assert forall|i: int| 0 <= i < params.len() implies parameter_declaration(
                param_data,
                params[i],
                #[trigger] declared[i],
            ) by {
                assert(declared[i] == before_build[i]);
            }
            assert(declarations_of(param_data, m.recorded, declared));
        }
        let declarations = DeclarationMap::from_environment(env);
        let cfg = Cfg::new(name, param_data, declarations, basic_blocks, dominator_tree);
        let r = Ok((cfg, reports));
        assert(Self::built_from_renamed(name@, param_data, *body, out, scopes, r));
        r
    }

    /// Builds the control-flow graph of a template.
    pub fn try_from_template(template: &TemplateData) -> (r: Result<
        (Cfg, ReportCollection),
        CFGError,
    >)
        requires
            template.body is Block,
        ensures
            exists|param_data: ParameterData|
                {
                    &&& param_data.is_of_template(*template)
                    &&& #[trigger] Self::built_from(template.name@, param_data, template.body, r)
                },
    {
        let name = template.get_name().clone();
        let param_data = ParameterData::from_template(template);
        let r = Cfg::build(name, param_data, template.get_body());
        r
    }

    /// Builds the control-flow graph of a function.
    pub fn try_from_function(function: &FunctionData) -> (r: Result<
        (Cfg, ReportCollection),
        CFGError,
    >)
        requires
            function.body is Block,
        ensures
            exists|param_data: ParameterData|
                {
                    &&& param_data.is_of_function(*function)
                    &&& #[trigger] Self::built_from(function.name@, param_data, function.body, r)
                },
    {
        let name = function.get_name().clone();
        let param_data = ParameterData::from_function(function);
        let r = Cfg::build(name, param_data, function.get_body());
        r
    }

    /// Builds the control-flow graph of a definition as the parser hands it
    /// over.
    pub fn try_from_definition(definition: &Definition) -> (r: Result<
        (Cfg, ReportCollection),
        CFGError,
    >)
        requires
            definition.body() is Block,
        ensures
            exists|param_data: ParameterData|
                {
                    &&& param_data.is_of_definition(*definition)
                    &&& #[trigger] Self::built_from(
                        definition.name()@,
                        param_data,
                        definition.body(),
                        r,
                    )
                },
    {
        let param_data = ParameterData::from_definition(definition);
        let name = param_data.name.clone();
        let r = Cfg::build(name, param_data, definition.get_body());
        r
    }
}

} // verus!
