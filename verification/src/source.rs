//! Where a script is read from.
//!
//! Paths and arguments are the bytes that the system holds, which need not be
//! text.

use vstd::prelude::*;

verus! {

/// The bytes of a word of the command line.
pub open spec fn word(s: &str) -> Seq<u8> {
    vstd::utf8::encode_utf8(s@)
}

/// What a list of arguments says.
pub open spec fn args_view(args: Seq<Vec<u8>>) -> Seq<Seq<u8>> {
    Seq::new(args.len(), |i: int| args[i]@)
}

/// What an argument that may be missing says.
pub open spec fn option_view(arg: Option<Vec<u8>>) -> Option<Seq<u8>> {
    match arg {
        Some(a) => Some(a@),
        None => None,
    }
}

/// Where a script comes from.
#[derive(Debug, Clone, PartialEq, Eq)]
pub enum ScriptSource {
    /// Standard input.
    Stdin,
    /// The file at this path.
    File(Vec<u8>),
    /// The output of `perf` with these arguments.
    Perf(Vec<Vec<u8>>),
}

/// What a source says.
pub enum SourceView {
    Stdin,
    File(Seq<u8>),
    Perf(Seq<Seq<u8>>),
}

impl View for ScriptSource {
    type V = SourceView;

    open spec fn view(&self) -> SourceView {
        match *self {
            ScriptSource::Stdin => SourceView::Stdin,
            ScriptSource::File(path) => SourceView::File(path@),
            ScriptSource::Perf(args) => SourceView::Perf(args_view(args@)),
        }
    }
}

/// The source that the command line asks for. A script file comes first, with
/// a dash for standard input, then recorded data, which `perf script` prints.
/// Without either the script is on standard input.
pub open spec fn source_of(
    script: Option<Seq<u8>>,
    perf_data: Option<Seq<u8>>,
    perf_args: Seq<Seq<u8>>,
) -> SourceView {
    match (script, perf_data) {
        (Some(path), _) => if path == word("-") {
            SourceView::Stdin
        } else {
            SourceView::File(path)
        },
        (None, Some(path)) => SourceView::Perf(
            seq![word("script"), word("-i"), path] + perf_args,
        ),
        (None, None) => SourceView::Stdin,
    }
}

/// Whether two byte strings are the same.
pub fn same_bytes(a: &[u8], b: &[u8]) -> (r: bool)
    ensures
        r == (a@ == b@),
{
    if a.len() != b.len() {
        return false;
    }
    for i in 0..a.len()
        invariant
            a@.len() == b@.len(),
            forall|j: int| 0 <= j < i ==> a@[j] == b@[j],
    {
        if a[i] != b[i] {
            return false;
        }
    }
    assert(a@ =~= b@);
    true
}

/// Chooses the source that the command line asks for.
pub fn script_source(
    script: Option<Vec<u8>>,
    perf_data: Option<Vec<u8>>,
    perf_args: Vec<Vec<u8>>,
) -> (r: ScriptSource)
    ensures
        r@ == source_of(option_view(script), option_view(perf_data), args_view(perf_args@)),
{
    match script {
        Some(path) => {
            if same_bytes(path.as_slice(), "-".as_bytes()) {
                ScriptSource::Stdin
            } else {
                ScriptSource::File(path)
            }
        },
        None => match perf_data {
            Some(path) => {
                let mut args: Vec<Vec<u8>> = Vec::new();
                args.push("script".as_bytes_vec());
                args.push("-i".as_bytes_vec());
                args.push(path);
                let mut rest = perf_args;
                args.append(&mut rest);
                assert(args_view(args@) =~= seq![word("script"), word("-i"), path@] + args_view(
                    perf_args@,
                ));
                ScriptSource::Perf(args)
            },
            None => ScriptSource::Stdin,
        },
    }
}

} // verus!
