//! The compile stage: each recorded compiler invocation is rewritten into
//! one that emits bitcode into the artifact store.

use vstd::prelude::*;
use vstd::string::*;
use crate::escape::{artifact_key, key_of};
use crate::model::{texts, Collection, Configuration};
use crate::store::{store_path, store_path_of};
use crate::tokens::{tokens, tokens_of};

verus! {

/// What the rewriter expects of the token it reads next.
pub enum Expect {
    /// Nothing in particular.
    Nothing,
    /// The token before was `-o`: this one names the output.
    Output,
    /// The output is named, and its path has not been written yet.
    Pending,
}

/// The rewriter after some tokens of a command.
pub struct Rewrite {
    pub expect: Expect,
    /// The output path the command names, once it has named one.
    pub output: Option<Seq<char>>,
    /// The rewritten command so far.
    pub text: Seq<char>,
}

/// The flag that marks the output path: `-o`.
pub open spec fn output_flag() -> Seq<char> {
    seq!['-', 'o']
}

/// What follows a substituted compiler: ` -emit-llvm `.
pub open spec fn emit_flag() -> Seq<char> {
    seq![' ', '-', 'e', 'm', 'i', 't', '-', 'l', 'l', 'v', 'm', ' ']
}

/// The rewriter before the first token.
pub open spec fn rewrite_start() -> Rewrite {
    Rewrite { expect: Expect::Nothing, output: None, text: Seq::empty() }
}

/// The rewriter after one more token.
///
/// The token after `-o` is taken as the output. A space goes before each
/// token. A token that is the C++ or the C compiler becomes the
/// bitcode-emitting compiler followed by the emit flag. Otherwise, when
/// the output is named and not yet written, the token becomes its path in
/// the store. Any other token stays as it is.
pub open spec fn rewrite_step(r: Rewrite, token: Seq<char>, config: Configuration, dir: Seq<char>)
    -> Rewrite {
    let named = r.expect is Output;
    let output = if named {
        Some(token)
    } else {
        r.output
    };
    let expect = if token == output_flag() {
        Expect::Output
    } else if named {
        Expect::Pending
    } else {
        r.expect
    };
    let text = r.text + seq![' '];
    if token == config.original_cxx_executable@ {
        Rewrite { expect, output, text: text + config.targeted_cxx_executable@ + emit_flag() }
    } else if token == config.original_cc_executable@ {
        Rewrite { expect, output, text: text + config.targeted_cc_executable@ + emit_flag() }
    } else if expect is Pending {
        Rewrite { expect: Expect::Nothing, output, text: text + store_path_of(dir, token) }
    } else {
        Rewrite { expect, output, text: text + token }
    }
}

/// The rewriter after all the given tokens.
pub open spec fn rewrite_of(list: Seq<Seq<char>>, config: Configuration, dir: Seq<char>) -> Rewrite
    decreases list.len(),
{
    if list.len() == 0 {
        rewrite_start()
    } else {
        rewrite_step(rewrite_of(list.drop_last(), config, dir), list.last(), config, dir)
    }
}

/// One translation unit of the compile stage.
#[derive(Debug, Clone)]
pub struct CompileUnit {
    /// The key of the unit's bitcode in the store.
    pub key: String,
    /// The rewritten compiler invocation.
    pub command: String,
}

/// Whether `unit` is what the command rewrites to: `None` when the
/// command names no output.
pub open spec fn is_rewritten(
    unit: Option<CompileUnit>,
    command: Seq<char>,
    config: Configuration,
    dir: Seq<char>,
) -> bool {
    let r = rewrite_of(tokens_of(command), config, dir);
    match unit {
        Some(u) => r.output is Some && u.key@ == key_of(r.output->0) && u.command@ == r.text,
        None => r.output is None,
    }
}

/// Rewrites one compiler invocation so that it emits bitcode into the
/// store under `objects_dir`.
pub fn rewrite_command(command: &str, config: &Configuration, objects_dir: &str) -> (unit: Option<
    CompileUnit,
>)
    ensures
        is_rewritten(unit, command@, *config, objects_dir@),
{
    let list = tokens(command);
    let flag = "-o".to_owned();
    let mut expect = Expect::Nothing;
    let mut output: Option<String> = None;
    let mut text = String::new();
    let mut i: usize = 0;
    proof {
        reveal_strlit("-o");
        reveal_strlit(" ");
        reveal_strlit(" -emit-llvm ");
        assert(flag@ =~= output_flag());
        assert(" "@ =~= seq![' ']);
        assert(" -emit-llvm "@ =~= emit_flag());
        assert(texts(list@).take(0) =~= Seq::<Seq<char>>::empty());
    }
    while i < list.len()
        invariant
            i <= list@.len(),
            flag@ == output_flag(),
            " "@ == seq![' '],
            " -emit-llvm "@ == emit_flag(),
            rewrite_of(texts(list@).take(i as int), *config, objects_dir@) == (Rewrite {
                expect,
                output: match output {
                    Some(o) => Some(o@),
                    None => None,
                },
                text: text@,
            }),
        decreases list@.len() - i,
    {
        let token = &list[i];
        proof {
            let all = texts(list@);
            assert(all.take(i + 1).drop_last() =~= all.take(i as int));
            assert(all.take(i + 1).last() == token@);
        }
        let named = match expect {
            Expect::Output => true,
            _ => false,
        };
        if named {
            output = Some(token.clone());
            expect = Expect::Pending;
        }
        if *token == flag {
            expect = Expect::Output;
        }
        text.append(" ");
        let pending = match expect {
            Expect::Pending => true,
            _ => false,
        };
        if *token == config.original_cxx_executable {
            text.append(config.targeted_cxx_executable.as_str());
            text.append(" -emit-llvm ");
        } else if *token == config.original_cc_executable {
            text.append(config.targeted_cc_executable.as_str());
            text.append(" -emit-llvm ");
        } else if pending {
            let path = store_path(objects_dir, token.as_str());
            text.append(path.as_str());
            expect = Expect::Nothing;
        } else {
            text.append(token.as_str());
        }
        i += 1;
    }
    proof {
        assert(texts(list@).take(i as int) =~= texts(list@));
    }
    match output {
        Some(o) => Some(CompileUnit { key: artifact_key(o.as_str()), command: text }),
        None => None,
    }
}

/// The units of the compile stage, one for each recorded invocation and
/// in their order.
pub fn compile_to_llvm(collection: &Collection, config: &Configuration, objects_dir: &str) -> (units:
    Vec<Option<CompileUnit>>)
    ensures
        units@.len() == collection.compile@.len(),
        forall|i: int|
            0 <= i < units@.len() ==> is_rewritten(
                #[trigger] units@[i],
                collection.compile@[i]@,
                *config,
                objects_dir@,
            ),
{
    let mut units: Vec<Option<CompileUnit>> = Vec::new();
    let mut i: usize = 0;
    while i < collection.compile.len()
        invariant
            i <= collection.compile@.len(),
            units@.len() == i,
            forall|j: int|
                0 <= j < i ==> is_rewritten(
                    #[trigger] units@[j],
                    collection.compile@[j]@,
                    *config,
                    objects_dir@,
                ),
        decreases collection.compile@.len() - i,
    {
        let unit = rewrite_command(collection.compile[i].as_str(), config, objects_dir);
        units.push(unit);
        i += 1;
    }
    units
}

/// What to do with a unit of the compile stage.
#[derive(Debug)]
pub enum CompileAction {
    /// The unit's bitcode is in the store already: the compiler is not run.
    UseCached,
    /// Run this program with these arguments.
    Invoke(Vec<String>),
}

/// Decides what to do with a unit: nothing when its bitcode is in the
/// store, else the rewritten invocation, split into program and arguments.
pub fn compile_action(unit: &CompileUnit, cached: bool) -> (action: CompileAction)
    ensures
        cached ==> action is UseCached,
        !cached ==> action is Invoke && texts(action->Invoke_0@) == tokens_of(unit.command@),
{
    if cached {
        CompileAction::UseCached
    } else {
        CompileAction::Invoke(tokens(unit.command.as_str()))
    }
}

} // verus!
