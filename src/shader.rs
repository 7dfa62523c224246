//! The decisions of shader program construction: each stage must compile and
//! the program must link, else construction stops with a diagnostic message
//! that is never empty.
use vstd::prelude::*;

verus! {

/// A stage of a shader program.
#[derive(Clone, Copy, PartialEq, Eq, Structural, Debug)]
pub enum ShaderStage {
    Vertex,
    Fragment,
}

/// The stages of a program, in compilation order.
pub open spec fn stages_spec() -> Seq<ShaderStage> {
    seq![ShaderStage::Vertex, ShaderStage::Fragment]
}

/// The stages of a program, in compilation order.
pub fn program_stages() -> (r: Vec<ShaderStage>)
    ensures
        r@ == stages_spec(),
{
    let mut r: Vec<ShaderStage> = Vec::new();
    r.push(ShaderStage::Vertex);
    r.push(ShaderStage::Fragment);
    proof {
        assert(r@ =~= stages_spec());
    }
    r
}

/// The message given when a stage fails to compile and reports no log.
pub open spec fn compile_fallback_spec(stage: ShaderStage) -> Seq<char> {
    match stage {
        ShaderStage::Vertex => "vertex shader failed to compile"@,
        ShaderStage::Fragment => "fragment shader failed to compile"@,
    }
}

/// The message given when linking fails and reports no log.
pub open spec fn link_fallback_spec() -> Seq<char> {
    "shader program failed to link"@
}

/// What a failed step reports: its own log, or the fallback when the log is
/// empty.
pub open spec fn diagnostic_spec(log: Seq<char>, fallback: Seq<char>) -> Seq<char> {
    if log.len() > 0 {
        log
    } else {
        fallback
    }
}

fn fallback_message(stage: Option<ShaderStage>) -> (r: String)
    ensures
        r@ == match stage {
            Some(s) => compile_fallback_spec(s),
            None => link_fallback_spec(),
        },
        r@.len() > 0,
{
    match stage {
        Some(ShaderStage::Vertex) => {
            proof {
                reveal_strlit("vertex shader failed to compile");
            }
            "vertex shader failed to compile".to_owned()
        },
        Some(ShaderStage::Fragment) => {
            proof {
                reveal_strlit("fragment shader failed to compile");
            }
            "fragment shader failed to compile".to_owned()
        },
        None => {
            proof {
                reveal_strlit("shader program failed to link");
            }
            "shader program failed to link".to_owned()
        },
    }
}

/// The outcome of compiling `stage`: `Ok` when it compiled, else its
/// diagnostic, which is its log or, for an empty log, a fixed message.
pub fn compile_outcome(stage: ShaderStage, compiled: bool, log: String) -> (r: Result<(), String>)
    ensures
        compiled ==> r is Ok,
        !compiled ==> r is Err && r->Err_0@ == diagnostic_spec(log@, compile_fallback_spec(stage)),
        !compiled ==> r->Err_0@.len() > 0,
{
    if compiled {
        Ok(())
    } else if !log.as_str().is_empty() {
        Err(log)
    } else {
        Err(fallback_message(Some(stage)))
    }
}

/// The outcome of linking: `Ok` when the program linked, else its
/// diagnostic, which is its log or, for an empty log, a fixed message.
pub fn link_outcome(linked: bool, log: String) -> (r: Result<(), String>)
    ensures
        linked ==> r is Ok,
        !linked ==> r is Err && r->Err_0@ == diagnostic_spec(log@, link_fallback_spec()),
        !linked ==> r->Err_0@.len() > 0,
{
    if linked {
        Ok(())
    } else if !log.as_str().is_empty() {
        Err(log)
    } else {
        Err(fallback_message(None))
    }
}

} // verus!
