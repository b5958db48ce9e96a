//! A KerML front end: diagnostics, lexing, parsing and the kernel model,
//! together with the tooling that indexes the KerML specification.
pub mod diagnostic;
pub mod source_map;
pub mod span;
pub mod arena;
pub mod interner;
pub mod token;
pub mod lexer;
pub mod text;
pub mod ast;
pub mod parser;
pub mod decl_count;
pub mod hir;
pub mod direction;
pub mod lower;
pub mod scope;
pub mod resolve;
pub mod stdlib;
pub mod typeck;
pub mod validate;
pub mod pipeline;
pub mod serial;
pub mod spec_mcp;

use vstd::prelude::*;
use vstd::string::StringSliceAdditionalSpecFns;
use crate::diagnostic::{Diagnostic, DiagnosticSink};
use crate::hir::{Def, DefId, DefKind, ResolutionState, SemanticModel, TypeInfo};
use crate::interner::StringInterner;
use crate::lower::{all_lowered, lemma_lowered_size_is_count, lemma_order_ranked, lower_ast, lowered_count, order_ranks};
use crate::parser::{file_clean, interner_grows, lemma_interner_grows_trans, only_errors_added, parsed_from, significant_tokens, ParseResult, Parser};
use crate::decl_count::decl_count;
use crate::span::FileId;
use vstd::utf8::encode_utf8;
use crate::pipeline::{compile, finalized, fixpoint_result};
use crate::resolve::{model_faithful, names_interned};
use crate::source_map::SourceMap;
use crate::stdlib::{add_implicit_specializations, dummy_span, is_library_type, library_names, load_stdlib, same_but_specializations};
use crate::validate::{appended, validation_reports};

verus! {

/// The output of a full front-end and engine pass: the resolved and type-checked model
/// together with the interner, the diagnostics and the source map they refer to.
/// `sink.has_errors()` tells whether compilation succeeded.
pub struct CompiledModel {
    pub model: SemanticModel,
    pub interner: StringInterner,
    pub sink: DiagnosticSink,
    pub source_map: SourceMap,
}

/// Sources of this many bytes or more are too large: offsets and symbols are 32-bit.
pub const MAX_SOURCE_BYTES: usize = 0xffff_fffe;

/// Sources shorter than this many bytes always compile: whatever they declare, their
/// definitions and names can be numbered in 32 bits.
pub const ROOMY_SOURCE_BYTES: usize = 0x5555_5552;

/// `e` is definition `d` of the lowered model, `anything` being the position of the
/// library type `Anything`: a type that specializes nothing is made to specialize
/// `Anything`, by a reference with no name that is already resolved; any other
/// definition is kept as it is.
pub open spec fn implicitly_specialized(d: Def, e: Def, anything: int) -> bool {
    if d.kind == DefKind::Type && d.specializations@.len() == 0 {
        &&& same_but_specializations(d, e)
        &&& e.specializations@.len() == 1
        &&& e.specializations@[0].segments@.len() == 0
        &&& e.specializations@[0].span == dummy_span()
        &&& e.specializations@[0].resolution matches ResolutionState::Resolved(t) && t.index() == anything
    } else {
        e == d
    }
}

/// The definition at `base + k` of `a` is the `k`-th library type, the first of which,
/// at `base`, every other one specializes.
pub open spec fn library_def(a: Seq<Def>, base: int, k: int) -> bool {
    if k == 0 {
        is_library_type(a[base], a[base].name, None)
    } else {
        exists|t: DefId|
            t.index() == base && #[trigger] is_library_type(a[base + k], a[base + k].name, Some((a[base].name, t)))
    }
}

/// `a` is the lowered model `low` with the six library types after it, the types of
/// `low` that specialize nothing specializing the first of them.
pub open spec fn with_library(low: Seq<Def>, a: Seq<Def>) -> bool {
    let n = low.len() as int;
    &&& a.len() == low.len() + 6
    &&& forall|m: int| 0 <= m < n ==> implicitly_specialized(#[trigger] low[m], a[m], n)
    &&& forall|k: int| 0 <= k < 6 ==> #[trigger] library_def(a, n, k)
}

/// `c` is what compiling `source`, named `file_name`, gives: the source map holds the
/// one file, and the model is the fixpoint of resolution and type checking from the
/// model that lowering the parse of `source` makes, with the library added, every
/// resolved named reference pointing at a definition of that name; the last six roots
/// are the library types, in their order. The diagnostics are the parse errors (none
/// exactly when the text is free of syntax errors), then what finishing resolution
/// reports, then the validation reports of the final model.
pub open spec fn compiled(c: CompiledModel, source: Seq<char>, file_name: Seq<char>) -> bool {
    let b = encode_utf8(source);
    &&& c.source_map@ == seq![(file_name, source)]
    &&& c.interner.wf()
    &&& c.model.wf()
    &&& names_interned(c.model.defs@, c.interner@.len())
    &&& model_faithful(c.model.defs@)
    &&& c.model.roots@.len() >= 6
    &&& forall|k: int|
        0 <= k < 6 ==> c.interner.text(
            c.model.defs@[(#[trigger] c.model.roots@[c.model.roots@.len() - 6 + k]).index() as int].name,
        ) == library_names()[k]
    &&& exists|p: ParseResult, iv: Seq<Seq<char>>, low: Seq<Def>, nl: Seq<Seq<char>>|
        #![trigger parsed_from(p, b, FileId(0), iv), all_lowered(p, low, nl)]
        {
            &&& parsed_from(p, b, FileId(0), iv)
            &&& interner_grows(iv, nl)
            &&& interner_grows(nl, c.interner@)
            &&& all_lowered(p, low, nl)
            &&& low.len() == decl_count(p)
            &&& exists|a: Seq<Def>, ai: Seq<TypeInfo>, s0: Seq<Diagnostic>, mid: Seq<Diagnostic>|
                #![trigger fixpoint_result(a, ai, c.model.roots@, c.model.def_to_type@, c.model.defs@, c.model.type_infos@), finalized(s0, mid, c.model.defs@, c.interner@)]
                {
                    &&& with_library(low, a)
                    &&& only_errors_added(Seq::empty(), s0)
                    &&& (s0.len() == 0 <==> file_clean(significant_tokens(b, FileId(0), 0), 0))
                    &&& fixpoint_result(a, ai, c.model.roots@, c.model.def_to_type@, c.model.defs@, c.model.type_infos@)
                    &&& finalized(s0, mid, c.model.defs@, c.interner@)
                    &&& appended(mid, c.sink@, validation_reports(c.model.defs@, c.interner@, c.model.defs@.len()))
                }
        }
}

/// The message refusing file `file_name` as too large: the quoted name, then `what`.
pub open spec fn refusal(file_name: Seq<char>, what: Seq<char>) -> Seq<char> {
    "`"@ + file_name + "` "@ + what
}

fn too_large(file_name: &str, what: &str) -> (s: String)
    ensures
        s@ == refusal(file_name@, what@),
{
    proof {
        reveal_strlit("`");
        reveal_strlit("` ");
    }
    String::from_str("`").concat(file_name).concat("` ").concat(what)
}

/// Compile a KerML source string through the full pipeline: parse, lower to the
/// semantic model, add the library types and the implicit specializations, then run the
/// engine (the resolution and type checking fixpoint, the reports for what stays
/// unresolved and for specialization cycles, and validation). `file_name` names the
/// file in diagnostics. It fails only on a text, or on what it declares, too large for
/// 32-bit offsets and symbols; a text shorter than [`ROOMY_SOURCE_BYTES`] always compiles,
/// since it cannot declare more than twice as many definitions as it has bytes.
pub fn compile_source(source: &str, file_name: &str) -> (r: Result<CompiledModel, String>)
    ensures
        source.spec_bytes().len() >= MAX_SOURCE_BYTES ==> (r matches Err(e) && e@ == refusal(
            file_name@,
            "is too large to compile"@,
        )),
        source.spec_bytes().len() < ROOMY_SOURCE_BYTES ==> r is Ok,
        r matches Err(e) ==> (source.spec_bytes().len() >= MAX_SOURCE_BYTES && e@ == refusal(
            file_name@,
            "is too large to compile"@,
        )) || (ROOMY_SOURCE_BYTES <= source.spec_bytes().len() < MAX_SOURCE_BYTES && e@ == refusal(
            file_name@,
            "declares too much to compile"@,
        )),
        r matches Ok(c) ==> compiled(c, source@, file_name@),
{
    if source.as_bytes().len() >= MAX_SOURCE_BYTES {
        return Err(too_large(file_name, "is too large to compile"));
    }
    let mut interner = StringInterner::new();
    let mut source_map = SourceMap::new();
    let mut sink = DiagnosticSink::new();
    let file_id = source_map.add_file(String::from_str(file_name), String::from_str(source));
    let ghost e0 = sink@;
    let parse = Parser::parse(source, file_id, &mut interner, &mut sink);
    let ghost s0 = sink@;
    let ghost iv = interner@;
    proof {
        assert(file_id == FileId(0));
        assert(e0.len() == 0);
        if s0.len() == 0 {
            assert(s0 =~= e0);
        }
        assert(s0.len() == 0 <==> file_clean(significant_tokens(encode_utf8(source@), FileId(0), 0), 0));
    }
    proof {
        lemma_order_ranked(parse, interner@.len());
        lemma_lowered_size_is_count(parse, interner@.len(), order_ranks(parse).0, order_ranks(parse).1);
    }
    let count = lowered_count(&parse, Ghost(interner@.len()));
    if count > (u32::MAX as u64) - (interner.len() as u64) {
        return Err(too_large(file_name, "declares too much to compile"));
    }
    proof {
        lemma_order_ranked(parse, interner@.len());
        assert(crate::lower::fits(parse, interner@.len(), order_ranks(parse).0, order_ranks(parse).1));
    }
    let ghost n0 = interner@.len();
    let mut model = lower_ast(&parse, &mut interner, &mut sink);
    let ghost low = model.defs@;
    let ghost nl = interner@;
    proof {
        let n = n0;
        lemma_lowered_size_is_count(
            parse,
            n,
            crate::lower::lowering_ranks(parse, n).0,
            crate::lower::lowering_ranks(parse, n).1,
        );
    }
    if model.defs.len() >= (u32::MAX as usize) - 6 || interner.len() >= (u32::MAX as usize) - 8 {
        return Err(too_large(file_name, "declares too much to compile"));
    }
    let stdlib = load_stdlib(&mut model, &mut interner);
    let ghost d1 = model.defs@;
    add_implicit_specializations(&mut model, &stdlib);
    proof {
        assert forall|m: int| 0 <= m < d1.len() implies (#[trigger] model.defs@[m]).name == d1[m].name by {}
    }
    let ghost a = model.defs@;
    let ghost ai = model.type_infos@;
    proof {
        let n = low.len() as int;
        assert(d1.subrange(0, n) == low);
        assert(stdlib.anything.index() == n);
        assert forall|m: int| 0 <= m < n implies implicitly_specialized(#[trigger] low[m], a[m], n) by {
            assert(d1[m] == d1.subrange(0, n)[m]);
        }
        assert forall|k: int| 0 <= k < 6 implies #[trigger] library_def(a, n, k) by {
            assert(stdlib.ids()[k].index() == n + k);
            assert(a[n + k] == d1[n + k]);
            assert(a[n] == d1[n]);
            let t = stdlib.anything;
            if k > 0 {
                assert(is_library_type(a[n + k], a[n + k].name, Some((a[n].name, t))));
            }
        }
        assert(with_library(low, a));
    }
    compile(&mut model, &interner, &mut sink);
    proof {
        assert(source_map@ =~= seq![(file_name@, source@)]);
        lemma_interner_grows_trans(iv, nl, interner@);
        let mid = choose|mid: Seq<Diagnostic>|
            {
                &&& finalized(s0, mid, model.defs@, interner@)
                &&& appended(mid, sink@, validation_reports(model.defs@, interner@, model.defs@.len()))
            };
        assert(fixpoint_result(a, ai, model.roots@, model.def_to_type@, model.defs@, model.type_infos@));
        assert(finalized(s0, mid, model.defs@, interner@));
        let rl = model.roots@.len();
        assert forall|k: int| 0 <= k < 6 implies interner.text(
            model.defs@[(#[trigger] model.roots@[rl - 6 + k]).index() as int].name,
        ) == library_names()[k] by {
            assert(model.roots@[rl - 6 + k] == stdlib.ids()[k]);
            assert(model.defs@[stdlib.ids()[k].index() as int].name == d1[stdlib.ids()[k].index() as int].name);
        }
        let b = encode_utf8(source@);
        assert(parsed_from(parse, b, FileId(0), iv));
        assert(interner_grows(iv, nl));
        assert(interner_grows(nl, interner@));
        assert(all_lowered(parse, low, nl));
        assert(low.len() == decl_count(parse));
        assert(with_library(low, a));
        assert(s0.len() == 0 <==> file_clean(significant_tokens(b, FileId(0), 0), 0));
        assert(only_errors_added(Seq::empty(), s0));
        assert(appended(mid, sink@, validation_reports(model.defs@, interner@, model.defs@.len())));
    }
    let c = CompiledModel { model, interner, sink, source_map };
    Ok(c)
}

} // verus!
