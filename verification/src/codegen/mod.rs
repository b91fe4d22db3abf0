use vstd::prelude::*;

use crate::analyzer::{defines_main, is_main_def};
use crate::chip8::{Addr, ByteOffset, Opcode, Register, SpriteHeight, UserRegister};
use crate::machine::{
    exec_word, group, halts_with_v0, is_key_test, is_skip, lemma_fwd_empty, lemma_fwd_frame, lemma_fwd_seq,
    nib_x, run_fwd, step, step_keys, steps_keys, word_at,
};
use crate::parser::ast::{
    BinOp, BuiltinFunction, Expr, ExprKind, MatchArm, Param, Program, Stmt, StmtKind,
    StructField, TopLevel, Type, UnaryOp,
};
use crate::table::{find_key, has_key, insert_key, key_first, lemma_lookup_after_insert, lemma_lookup_first, lookup};

mod fragment;

pub use fragment::{
    arms_fit, arms_ok, binary_value, is_comparison, demand, env_lookup, env_upto, first_match, fits,
    is_reg_expr, lets_fit, lets_ok, param_env, param_names, reg_value, register_fn,
    register_main_body, register_params, scope_upto, unary_value, yields_local,
};
use fragment::{
    lemma_comparison_computes, lemma_if_computes, lemma_match_computes, arms_laid, ends_patched,
    lemma_end_patched, lemma_arms_laid_frame, lemma_arms_laid_push, lemma_arms_ok_at, lemma_arms_fit_at,
    arm_code, order_x, order_y, lemma_fits_demand, lemma_lets_fit_at, lemma_lets_ok_at, agree_below, computes, lemma_binary_copied, lemma_binary_in_place, lemma_computes_frame,
    lemma_ident_computes, lemma_literal_computes, lemma_main_rom_halts,
    lemma_moves_frame, lemma_prefix_trans, lemma_regs_env_agree, lemma_regs_env_push,
    lemma_exec_op, lemma_op_runs, lemma_prefix_elems, lemma_then_move, lemma_unary_computes, local_names, locals_below, main_rom, moves_to_v0,
    regs_env, scalar_opcode,
};
use crate::text::{same_text, text_is};

verus! {

/// Where code generation keeps a value.
enum Loc {
    /// In a register; `owned` when the register is a temporary that may be overwritten.
    Reg { reg: Register, owned: bool },
    /// A struct in scratch memory, at a scratch offset.
    Mem { offset: usize, sname: String },
    /// No value (loops, unit results).
    Void,
}

/// How a local variable is kept.
pub(crate) enum Binding {
    Reg(u8),
    Mem { offset: usize, sname: String },
}

/// What an instruction left open refers to.
enum RefKind {
    /// `CALL` to a function.
    Call(String),
    /// `LD I` to a global in the data section.
    Global(String),
    /// `LD I` to a scratch memory offset.
    Scratch(usize),
    /// `JP` to a code offset: a call of the current function in tail position.
    Jump(usize),
}

/// An instruction whose address is filled in at the end.
struct ForwardRef {
    offset: ByteOffset,
    kind: RefKind,
}

/// What the code generator knows of a function before generating it.
struct FnInfo {
    /// For each parameter: `None` for a register parameter, the scratch offset of the
    /// parameter's area for a struct parameter.
    param_areas: Vec<Option<usize>>,
    /// The scratch offset and struct name of the return area, for a struct result.
    ret_area: Option<(usize, String)>,
    /// Whether the body calls no user function.
    is_leaf: bool,
}

/// The bytes of a global's initial value.
pub open spec fn init_bytes(value: Expr) -> Seq<u8> {
    match value.kind {
        ExprKind::ArrayLiteral(elems) => literal_bytes(elems@),
        ExprKind::IntLiteral(v) => seq![v as u8],
        _ => seq![0u8],
    }
}

/// The integer literals of an array literal, one byte each (other elements are skipped).
pub open spec fn literal_bytes(elems: Seq<Expr>) -> Seq<u8>
    decreases elems.len(),
{
    if elems.len() == 0 {
        seq![]
    } else {
        literal_bytes(elems.drop_last()) + match elems.last().kind {
            ExprKind::IntLiteral(v) => seq![v as u8],
            _ => seq![],
        }
    }
}

/// The data section: the initial values of the globals, in order of definition.
pub open spec fn data_section(tops: Seq<TopLevel>) -> Seq<u8>
    decreases tops.len(),
{
    if tops.len() == 0 {
        seq![]
    } else {
        data_section(tops.drop_last()) + match tops.last() {
            TopLevel::LetDef { value, .. } => init_bytes(value),
            _ => seq![],
        }
    }
}

/// Where the global `name` starts in the data section: after the initial values of the
/// globals defined before its last definition; `None` when no global has that name.
pub open spec fn global_offset(tops: Seq<TopLevel>, name: Seq<char>) -> Option<int>
    decreases tops.len(),
{
    if tops.len() == 0 {
        None
    } else {
        match tops.last() {
            TopLevel::LetDef { name: n, .. } => if n@ == name {
                Some(data_section(tops.drop_last()).len() as int)
            } else {
                global_offset(tops.drop_last(), name)
            },
            _ => global_offset(tops.drop_last(), name),
        }
    }
}

/// A word of generated code: the encoding of an instruction, or the zero word that a
/// reference keeps when its target is never found (a call of an undefined function).
pub open spec fn is_code_word(w: int) -> bool {
    ||| w == 0
    ||| exists|op: Opcode| #[trigger] op.word() == w
}

/// The first `n` bytes of `b` are whole code words.
pub open spec fn code_words(b: Seq<u8>, n: int) -> bool {
    &&& n % 2 == 0
    &&& 0 <= n <= b.len()
    &&& forall|k: int| 0 <= k < n && k % 2 == 0 ==> #[trigger] is_code_word(word_at(b, k))
}

/// The code of `code_len` bytes at the start of `rom` opens with a jump, and where the code
/// fits in memory above 0x200 the jump lands inside the code, past that first word.
pub open spec fn entry_in_code(rom: Seq<u8>, code_len: int) -> bool {
    &&& 0x1000 <= word_at(rom, 0) < 0x2000
    &&& 0x200 + code_len <= 0x1000 ==> 0x1202 <= word_at(rom, 0) < 0x1200 + code_len
}

/// A function of a program (the item `top`) has its code in the ROM `b` from `start` to
/// its closing word at `end`: `RET`, or for `main` a jump to itself. When its parameters
/// are in registers and its body is a register expression, its code, run from `start` with
/// the arguments in V0, V1, ..., reaches `end` with the body's value in V0.
pub open spec fn fn_placed(b: Seq<u8>, top: TopLevel, code_len: int, start: int, end: int) -> bool {
    match top {
        TopLevel::FnDef { name, params, body, .. } => {
            &&& 2 <= start <= end
            &&& end + 2 <= code_len
            &&& start % 2 == 0
            &&& end % 2 == 0
            &&& word_at(b, end) == if name@ == seq!['m', 'a', 'i', 'n'] {
                0x1000 + addr_of_spec(0x200usize.saturating_add(end as usize))
            } else {
                Opcode::Ret.word()
            }
            &&& register_fn(params@, body) ==> forall|v: Seq<u8>|
                v.len() == 16 && 0x200 + end < 0x1000 ==> (#[trigger] run_fwd(v, b, start, end) matches Some(
                    u,
                ) && u[0] == reg_value(body, param_env(params@, v)))
        },
        _ => true,
    }
}

/// The layout of the functions of a program in the code (`code_len` bytes) of a ROM: the
/// `i`-th item, when it is a function, lies from `starts[i]` to `ends[i]` ([`fn_placed`]),
/// the functions in the program's order, the last one closing the code, and the opening
/// jump landing on the start of the last function named `main`.
pub open spec fn rom_layout(
    b: Seq<u8>,
    tops: Seq<TopLevel>,
    code_len: int,
    starts: Seq<int>,
    ends: Seq<int>,
) -> bool {
    &&& starts.len() == tops.len()
    &&& ends.len() == tops.len()
    &&& forall|i: int| 0 <= i < tops.len() ==> #[trigger] fn_placed(b, tops[i], code_len, starts[i], ends[i])
    &&& forall|i: int, j: int|
        0 <= i < j < tops.len() && (#[trigger] tops[i]) is FnDef && (#[trigger] tops[j]) is FnDef
            ==> ends[i] + 2 <= starts[j]
    &&& forall|i: int|
        0 <= i < tops.len() && (#[trigger] tops[i]) is FnDef && (forall|j: int|
            i < j < tops.len() ==> !(tops[j] is FnDef)) ==> ends[i] + 2 == code_len
    &&& forall|i: int|
        0 <= i < tops.len() && is_main_def(#[trigger] tops[i]) && (forall|j: int|
            i < j < tops.len() ==> !is_main_def(tops[j])) ==> word_at(b, 0) == 0x1000 + addr_of_spec(
            0x200usize.saturating_add(starts[i] as usize),
        )
}

/// The position of the last function named `name` among the items `tops`.
pub open spec fn last_fn_def(tops: Seq<TopLevel>, name: Seq<char>) -> Option<int>
    decreases tops.len(),
{
    if tops.len() == 0 {
        None
    } else if tops.last() matches TopLevel::FnDef { name: n, .. } && n@ == name {
        Some(tops.len() - 1)
    } else {
        last_fn_def(tops.drop_last(), name)
    }
}

/// The function table after the item `tops[i]`: a function adds its name at its start
/// (`starts[i]`), other items leave the table as it was.
proof fn lemma_offsets_step(
    f0: Seq<(String, usize)>,
    f1: Seq<(String, usize)>,
    tops: Seq<TopLevel>,
    i: int,
    starts0: Seq<int>,
    starts: Seq<int>,
    start: usize,
)
    requires
        0 <= i < tops.len(),
        starts0.len() == i,
        tops[i] is FnDef ==> starts[i] == start as int,
        starts == starts0.push(starts[i]),
        forall|k: Seq<char>|
            (#[trigger] lookup(f0, k) is Some) == (last_fn_def(tops.take(i), k) is Some),
        forall|k: Seq<char>|
            #[trigger] lookup(f0, k) matches Some(o) ==> last_fn_def(tops.take(i), k) matches Some(j)
                && 0 <= j < i && o == starts0[j],
        tops[i] matches TopLevel::FnDef { name, .. } ==> forall|k: Seq<char>|
            #[trigger] lookup(f1, k) == if k == name@ {
                Some(start)
            } else {
                lookup(f0, k)
            },
        !(tops[i] is FnDef) ==> f1 == f0,
    ensures
        forall|k: Seq<char>|
            (#[trigger] lookup(f1, k) is Some) == (last_fn_def(tops.take(i + 1), k) is Some),
        forall|k: Seq<char>|
            #[trigger] lookup(f1, k) matches Some(o) ==> last_fn_def(tops.take(i + 1), k) matches Some(j)
                && 0 <= j < i + 1 && o == starts[j],
{
    let t1 = tops.take(i + 1);
    assert(t1.drop_last() =~= tops.take(i));
    assert(t1.last() == tops[i]);
    assert forall|k: Seq<char>|
        (#[trigger] lookup(f1, k) is Some) == (last_fn_def(t1, k) is Some) && (lookup(f1, k) matches Some(o)
            ==> last_fn_def(t1, k) matches Some(j) && 0 <= j < i + 1 && o == starts[j]) by {
        if let TopLevel::FnDef { name, .. } = tops[i] {
            if k == name@ {
                assert(last_fn_def(t1, k) == Some(i));
            } else {
                assert(last_fn_def(t1, k) == last_fn_def(tops.take(i), k));
                if lookup(f0, k) is Some {
                    let j = last_fn_def(tops.take(i), k)->0;
                    assert(starts[j] == starts0[j]);
                }
            }
        } else {
            assert(last_fn_def(t1, k) == last_fn_def(tops.take(i), k));
            if lookup(f0, k) is Some {
                let j = last_fn_def(tops.take(i), k)->0;
                assert(starts[j] == starts0[j]);
            }
        }
    }
}

/// Each call `(offset, name)` in the code `b` is a `CALL` to the start of the last function
/// named `name`, where the program has one (functions placed at `starts`).
pub open spec fn calls_land(
    b: Seq<u8>,
    tops: Seq<TopLevel>,
    starts: Seq<int>,
    calls: Set<(int, Seq<char>)>,
) -> bool {
    forall|off: int, name: Seq<char>|
        #[trigger] calls.contains((off, name)) && last_fn_def(tops, name) is Some ==> word_at(b, off)
            == 0x2000 + addr_of_spec(0x200usize.saturating_add(starts[last_fn_def(tops, name)->0] as usize))
}

/// The names of a list of strings.
pub open spec fn names_of(vs: Seq<String>) -> Seq<Seq<char>> {
    vs.map_values(|v: String| v@)
}

/// The variants of the last enum named `n` among the items `tops`.
pub open spec fn enum_decl(tops: Seq<TopLevel>, n: Seq<char>) -> Option<Seq<Seq<char>>>
    decreases tops.len(),
{
    if tops.len() == 0 {
        None
    } else {
        match tops.last() {
            TopLevel::EnumDef { name, variants, .. } => if name@ == n {
                Some(names_of(variants@))
            } else {
                enum_decl(tops.drop_last(), n)
            },
            _ => enum_decl(tops.drop_last(), n),
        }
    }
}

/// The value of the variant `v` of an enum whose declared variants are `vs`: its position
/// among them (the first, if the name is repeated), or 0 when it is not declared or its
/// position does not fit in a byte.
pub open spec fn variant_index(vs: Seq<String>, v: Seq<char>) -> u8 {
    if exists|k: int| 0 <= k < vs.len() && vs[k]@ == v && (forall|j: int| 0 <= j < k ==> vs[j]@ != v) {
        let k = choose|k: int| 0 <= k < vs.len() && vs[k]@ == v && (forall|j: int| 0 <= j < k ==> vs[j]@ != v);
        if k < 256 {
            k as u8
        } else {
            0
        }
    } else {
        0
    }
}

/// An enum's variants are numbered in declaration order: the `i`-th declared variant (its
/// name not declared earlier) has the value `i`, so the first 256 variants of an enum with
/// distinct names all have distinct values.
pub proof fn law_variant_values(vs: Seq<String>, i: int, j: int)
    requires
        0 <= i < vs.len(),
        0 <= j < vs.len(),
        forall|a: int, b: int| 0 <= a < b < vs.len() ==> vs[a]@ != vs[b]@,
    ensures
        i < 256 ==> variant_index(vs, vs[i]@) == i,
        i < 256 && j < 256 && i != j ==> variant_index(vs, vs[i]@) != variant_index(vs, vs[j]@),
{
    assert(0 <= i < vs.len() && vs[i]@ == vs[i]@ && (forall|a: int| 0 <= a < i ==> vs[a]@ != vs[i]@));
    assert(0 <= j < vs.len() && vs[j]@ == vs[j]@ && (forall|a: int| 0 <= a < j ==> vs[a]@ != vs[j]@));
    let ki = choose|k: int| 0 <= k < vs.len() && vs[k]@ == vs[i]@ && (forall|a: int| 0 <= a < k ==> vs[a]@ != vs[i]@);
    let kj = choose|k: int| 0 <= k < vs.len() && vs[k]@ == vs[j]@ && (forall|a: int| 0 <= a < k ==> vs[a]@ != vs[j]@);
    if ki != i {
        if ki < i {
            assert(vs[ki]@ != vs[i]@);
        } else {
            assert(vs[i]@ != vs[ki]@);
        }
    }
    if kj != j {
        if kj < j {
            assert(vs[kj]@ != vs[j]@);
        } else {
            assert(vs[j]@ != vs[kj]@);
        }
    }
}

/// Each tail jump `(offset, target)` in the code `b` is a `JP` to `target`, the start of the
/// function whose code holds it (functions placed from `starts` to `ends`).
pub open spec fn jumps_land(
    b: Seq<u8>,
    tops: Seq<TopLevel>,
    starts: Seq<int>,
    ends: Seq<int>,
    jumps: Set<(int, usize)>,
) -> bool {
    forall|off: int, t: usize|
        #[trigger] jumps.contains((off, t)) ==> word_at(b, off) == 0x1000 + addr_of_spec(
            0x200usize.saturating_add(t),
        ) && exists|j: int|
            0 <= j < tops.len() && #[trigger] tops[j] is FnDef && starts[j] == t && starts[j] <= off
                < ends[j]
}

/// The tail jumps among the references `refs` lie in the code of the function that they
/// jump to the start of, among the first `i` items.
spec fn jumps_in_fns(refs: Seq<ForwardRef>, tops: Seq<TopLevel>, i: int, starts: Seq<int>, ends: Seq<int>) -> bool {
    forall|k: int|
        0 <= k < refs.len() && (#[trigger] refs[k]).kind is Jump ==> exists|j: int|
            0 <= j < i && #[trigger] tops[j] is FnDef && starts[j] == refs[k].kind->Jump_0 && starts[j]
                <= refs[k].offset.0 < ends[j]
}

/// Generating the item `tops[i]` keeps the tail jumps in their functions: a function's
/// new jumps go to its own start and lie in its code.
proof fn lemma_jumps_step(
    refs0: Seq<ForwardRef>,
    refs1: Seq<ForwardRef>,
    tops: Seq<TopLevel>,
    i: int,
    starts0: Seq<int>,
    ends0: Seq<int>,
    starts: Seq<int>,
    ends: Seq<int>,
)
    requires
        0 <= i < tops.len(),
        starts0.len() == i,
        ends0.len() == i,
        starts == starts0.push(starts[i]),
        ends == ends0.push(ends[i]),
        jumps_in_fns(refs0, tops, i, starts0, ends0),
        refs0.len() <= refs1.len(),
        forall|k: int| 0 <= k < refs0.len() ==> refs1[k] == refs0[k],
        !(tops[i] is FnDef) ==> refs1 == refs0,
        tops[i] is FnDef ==> forall|k: int|
            refs0.len() <= k < refs1.len() && (#[trigger] refs1[k]).kind is Jump ==> refs1[k].kind->Jump_0
                == starts[i] && starts[i] <= refs1[k].offset.0 < ends[i],
    ensures
        jumps_in_fns(refs1, tops, i + 1, starts, ends),
{
    assert forall|k: int|
        0 <= k < refs1.len() && (#[trigger] refs1[k]).kind is Jump implies exists|j: int|
            0 <= j < i + 1 && #[trigger] tops[j] is FnDef && starts[j] == refs1[k].kind->Jump_0 && starts[j]
                <= refs1[k].offset.0 < ends[j] by {
        if k < refs0.len() {
            assert(refs1[k] == refs0[k]);
            let j = choose|j: int|
                0 <= j < i && #[trigger] tops[j] is FnDef && starts0[j] == refs0[k].kind->Jump_0 && starts0[j]
                    <= refs0[k].offset.0 < ends0[j];
            assert(starts[j] == starts0[j] && ends[j] == ends0[j]);
            assert(tops[j] is FnDef);
        } else {
            assert(tops[i] is FnDef);
        }
    }
}

/// A forward reference at `off` lies outside the closing word of a function, and outside
/// its code when that computes a register value.
spec fn refs_clear(off: int, top: TopLevel, start: int, end: int) -> bool {
    &&& off != end
    &&& (top matches TopLevel::FnDef { params, body, .. } && register_fn(params@, body)) ==> !(start
        <= off && off < end)
}

/// The functions among the first `i` items of a program laid out in the code `b`, with the
/// forward references `refs` clear of them.
spec fn layout_upto(
    b: Seq<u8>,
    refs: Seq<ForwardRef>,
    tops: Seq<TopLevel>,
    i: int,
    starts: Seq<int>,
    ends: Seq<int>,
) -> bool {
    &&& 0 <= i <= tops.len()
    &&& starts.len() == i
    &&& ends.len() == i
    &&& forall|j: int| 0 <= j < i ==> #[trigger] fn_placed(b, tops[j], b.len() as int, starts[j], ends[j])
    &&& forall|j: int, k: int|
        0 <= j < k < i && (#[trigger] tops[j]) is FnDef && (#[trigger] tops[k]) is FnDef ==> ends[j]
            + 2 <= starts[k]
    &&& forall|j: int|
        0 <= j < i && (#[trigger] tops[j]) is FnDef && (forall|k: int| j < k < i ==> !(tops[k] is FnDef))
            ==> ends[j] + 2 == b.len()
    &&& forall|k: int, j: int|
        0 <= k < refs.len() && 0 <= j < i && tops[j] is FnDef ==> #[trigger] refs_clear(
            refs[k].offset.0 as int,
            tops[j],
            starts[j],
            ends[j],
        )
}

/// A function laid out stays so where its closing word, and its code when it computes a
/// register value, are in place.
proof fn lemma_fn_placed_frame(
    b1: Seq<u8>,
    b2: Seq<u8>,
    top: TopLevel,
    c1: int,
    c2: int,
    start: int,
    end: int,
)
    requires
        fn_placed(b1, top, c1, start, end),
        top is FnDef ==> end + 2 <= c2 && end + 2 <= b1.len() && end + 2 <= b2.len() && b2[end]
            == b1[end] && b2[end + 1] == b1[end + 1],
        (top matches TopLevel::FnDef { params, body, .. } && register_fn(params@, body)) ==> forall|
            x: int,
        | start <= x < end ==> b2[x] == b1[x],
    ensures
        fn_placed(b2, top, c2, start, end),
{
    if let TopLevel::FnDef { params, body, .. } = top {
        if register_fn(params@, body) {
            assert forall|v: Seq<u8>| v.len() == 16 && 0x200 + end < 0x1000 implies (#[trigger] run_fwd(
                v,
                b2,
                start,
                end,
            ) matches Some(u) && u[0] == reg_value(body, param_env(params@, v))) by {
                lemma_fwd_frame(v, b1, b2, start, end);
            }
        }
    }
}

/// An item that is not a function adds nothing to the layout.
proof fn lemma_layout_skip(
    b: Seq<u8>,
    refs: Seq<ForwardRef>,
    tops: Seq<TopLevel>,
    i: int,
    starts: Seq<int>,
    ends: Seq<int>,
)
    requires
        layout_upto(b, refs, tops, i, starts, ends),
        i < tops.len(),
        !(tops[i] is FnDef),
    ensures
        layout_upto(b, refs, tops, i + 1, starts.push(0), ends.push(0)),
{
    let s2 = starts.push(0);
    let e2 = ends.push(0);
    assert forall|j: int| 0 <= j < i + 1 implies #[trigger] fn_placed(b, tops[j], b.len() as int, s2[j], e2[j]) by {
        if j < i {
            assert(fn_placed(b, tops[j], b.len() as int, starts[j], ends[j]));
        }
    }
    assert forall|j: int|
        0 <= j < i + 1 && (#[trigger] tops[j]) is FnDef && (forall|k: int| j < k < i + 1 ==> !(tops[k] is FnDef))
            implies e2[j] + 2 == b.len() by {
        assert(forall|k: int| j < k < i ==> !(tops[k] is FnDef));
    }
    assert forall|k: int, j: int|
        0 <= k < refs.len() && 0 <= j < i + 1 && tops[j] is FnDef implies #[trigger] refs_clear(
            refs[k].offset.0 as int,
            tops[j],
            s2[j],
            e2[j],
        ) by {
        assert(refs_clear(refs[k].offset.0 as int, tops[j], starts[j], ends[j]));
    }
}

/// A function generated from `b1` (its start) to `b2`, closing at `e`, added to the layout.
#[verifier::spinoff_prover]
#[verifier::rlimit(60)]
proof fn lemma_layout_push(
    b1: Seq<u8>,
    b2: Seq<u8>,
    refs1: Seq<ForwardRef>,
    refs2: Seq<ForwardRef>,
    tops: Seq<TopLevel>,
    i: int,
    starts: Seq<int>,
    ends: Seq<int>,
)
    requires
        layout_upto(b1, refs1, tops, i, starts, ends),
        i < tops.len(),
        tops[i] is FnDef,
        b1.len() >= 2,
        b1.len() % 2 == 0,
        b2.len() % 2 == 0,
        b1.len() + 2 <= b2.len(),
        prefix_kept(b1, b2),
        refs_grow(refs1, refs2, b1.len() as int),
        forall|k: int| 0 <= k < refs1.len() ==> (#[trigger] refs1[k]).offset.0 + 1 < b1.len(),
        forall|k: int| 0 <= k < refs2.len() ==> (#[trigger] refs2[k]).offset.0 + 2 <= b2.len() - 2,
        fn_placed(b2, tops[i], b2.len() as int, b1.len() as int, b2.len() - 2),
        (tops[i] matches TopLevel::FnDef { params, body, .. } && register_fn(params@, body)) ==> refs2
            == refs1,
    ensures
        layout_upto(b2, refs2, tops, i + 1, starts.push(b1.len() as int), ends.push(b2.len() - 2)),
{
    let l = b1.len() as int;
    let e = b2.len() - 2;
    let s2 = starts.push(l);
    let e2 = ends.push(e);
    assert forall|j: int| 0 <= j < i + 1 implies #[trigger] fn_placed(b2, tops[j], b2.len() as int, s2[j], e2[j]) by {
        if j < i {
            assert(fn_placed(b1, tops[j], l, starts[j], ends[j]));
            lemma_fn_placed_frame(b1, b2, tops[j], l, b2.len() as int, starts[j], ends[j]);
        }
    }
    assert forall|j: int, k: int|
        0 <= j < k < i + 1 && (#[trigger] tops[j]) is FnDef && (#[trigger] tops[k]) is FnDef implies e2[j]
            + 2 <= s2[k] by {
        if k == i {
            assert(fn_placed(b1, tops[j], l, starts[j], ends[j]));
        }
    }
    assert forall|j: int|
        0 <= j < i + 1 && (#[trigger] tops[j]) is FnDef && (forall|k: int| j < k < i + 1 ==> !(tops[k] is FnDef))
            implies e2[j] + 2 == b2.len() by {
        if j < i {
            assert(!(tops[i] is FnDef));
        }
    }
    assert forall|k: int, j: int|
        0 <= k < refs2.len() && 0 <= j < i + 1 && tops[j] is FnDef implies #[trigger] refs_clear(
            refs2[k].offset.0 as int,
            tops[j],
            s2[j],
            e2[j],
        ) by {
        let off = refs2[k].offset.0 as int;
        if k < refs1.len() {
            assert(refs2[k] == refs1[k]);
            assert(off + 1 < l);
            if j < i {
                assert(refs_clear(refs1[k].offset.0 as int, tops[j], starts[j], ends[j]));
            }
        } else {
            assert(l <= refs2[k].offset.0);
            assert(off + 2 <= e);
            if j < i {
                assert(fn_placed(b1, tops[j], l, starts[j], ends[j]));
            }
        }
    }
}

/// The layout of all the functions survives the filling in of the forward references
/// (`b_res`), of the opening jump (`b_fin`) and the appending of the data (`rom`).
#[verifier::spinoff_prover]
#[verifier::rlimit(60)]
proof fn lemma_layout_final(
    b_loop: Seq<u8>,
    refs: Seq<ForwardRef>,
    b_res: Seq<u8>,
    b_fin: Seq<u8>,
    rom: Seq<u8>,
    tops: Seq<TopLevel>,
    starts: Seq<int>,
    ends: Seq<int>,
    main_start: Option<usize>,
    mi: int,
)
    requires
        layout_upto(b_loop, refs, tops, tops.len() as int, starts, ends),
        b_loop.len() >= 2,
        forall|k: int| 0 <= k < refs.len() ==> (#[trigger] refs[k]).offset.0 % 2 == 0,
        b_res.len() == b_loop.len(),
        forall|x: int|
            0 <= x < b_loop.len() && (forall|k: int|
                0 <= k < refs.len() ==> x != (#[trigger] refs[k]).offset.0 && x != refs[k].offset.0 + 1)
                ==> #[trigger] b_res[x] == b_loop[x],
        b_fin.len() == b_res.len(),
        forall|x: int| 2 <= x < b_res.len() ==> #[trigger] b_fin[x] == b_res[x],
        main_start matches Some(m) ==> 0 <= mi < tops.len() && is_main_def(tops[mi]) && m == starts[mi]
            && (forall|j: int| mi < j < tops.len() ==> !is_main_def(#[trigger] tops[j])) && word_at(
            b_fin,
            0,
        ) == 0x1000 + addr_of_spec(0x200usize.saturating_add(m)),
        main_start is None ==> forall|j: int| 0 <= j < tops.len() ==> !is_main_def(#[trigger] tops[j]),
        b_fin.len() <= rom.len(),
        forall|x: int| 0 <= x < b_fin.len() ==> #[trigger] rom[x] == b_fin[x],
    ensures
        rom_layout(rom, tops, b_fin.len() as int, starts, ends),
{
    let n = tops.len() as int;
    let len = b_loop.len() as int;
    assert forall|i: int| 0 <= i < n implies #[trigger] fn_placed(rom, tops[i], len, starts[i], ends[i]) by {
        assert(fn_placed(b_loop, tops[i], len, starts[i], ends[i]));
        if tops[i] is FnDef {
            let st = starts[i];
            let en = ends[i];
            assert forall|x: int| (x == en || x == en + 1 || ((tops[i] matches TopLevel::FnDef { params, body, .. }
                && register_fn(params@, body)) && st <= x < en)) implies b_res[x] == b_loop[x] by {
                assert forall|k: int| 0 <= k < refs.len() implies x != (#[trigger] refs[k]).offset.0 && x
                    != refs[k].offset.0 + 1 by {
                    assert(refs_clear(refs[k].offset.0 as int, tops[i], st, en));
                }
            }
            lemma_fn_placed_frame(b_loop, b_res, tops[i], len, len, st, en);
            lemma_fn_placed_frame(b_res, b_fin, tops[i], len, len, st, en);
            lemma_fn_placed_frame(b_fin, rom, tops[i], len, len, st, en);
        }
    }
    if let Some(m) = main_start {
        assert(word_at(rom, 0) == word_at(b_fin, 0));
        assert forall|i: int|
            0 <= i < n && is_main_def(#[trigger] tops[i]) && (forall|j: int| i < j < n ==> !is_main_def(tops[j]))
                implies word_at(rom, 0) == 0x1000 + addr_of_spec(0x200usize.saturating_add(starts[i] as usize)) by {
            if i < mi {
                assert(!is_main_def(tops[mi]));
            } else if i > mi {
                assert(!is_main_def(tops[i]));
            }
        }
    }
}

/// The bytes `b` are `a` followed by the code that loads the byte at I into register `t`
/// and keeps V0: `LD V0, [I]` when `t` is V0; otherwise `LD t, V0`, `LD V0, [I]` and three
/// `XOR`s that swap `t` and V0.
spec fn load_code(a: Seq<u8>, b: Seq<u8>, t: Register) -> bool {
    let n = a.len() as int;
    let x = t.idx() as int;
    &&& b.subrange(0, n) == a
    &&& if x == 0 {
        b.len() == n + 2 && word_at(b, n) == 0xF065
    } else {
        &&& b.len() == n + 10
        &&& word_at(b, n) == 0x8000 + x * 0x100
        &&& word_at(b, n + 2) == 0xF065
        &&& word_at(b, n + 4) == 0x8003 + x * 0x100
        &&& word_at(b, n + 6) == 0x8003 + x * 0x10
        &&& word_at(b, n + 8) == 0x8003 + x * 0x100
    }
}

/// A placeholder word at `off` lies inside code of `len` bytes, on a word boundary.
spec fn slot(len: int, off: usize) -> bool {
    off + 1 < len && off % 2 == 0
}

/// The references `b` keep the references `a` and add only ones at or after `len`.
spec fn refs_grow(a: Seq<ForwardRef>, b: Seq<ForwardRef>, len: int) -> bool {
    &&& a.len() <= b.len()
    &&& forall|i: int| 0 <= i < a.len() ==> b[i] == a[i]
    &&& forall|i: int| a.len() <= i < b.len() ==> len <= (#[trigger] b[i]).offset.0
}

/// The bytes `b` are the bytes `a` followed by the words of `ops`.
spec fn appends(a: Seq<u8>, b: Seq<u8>, ops: Seq<Opcode>) -> bool {
    &&& b.len() == a.len() + 2 * ops.len()
    &&& b.subrange(0, a.len() as int) == a
    &&& forall|i: int| 0 <= i < ops.len() ==> word_at(b, a.len() + 2 * i) == (#[trigger] ops[i]).word()
}

/// No words appended yet.
proof fn lemma_appends_none(a: Seq<u8>)
    ensures
        appends(a, a, seq![]),
{
    assert(a.subrange(0, a.len() as int) =~= a);
}

/// One more word appended.
proof fn lemma_appends_push(a: Seq<u8>, b: Seq<u8>, c: Seq<u8>, ops: Seq<Opcode>, op: Opcode)
    requires
        appends(a, b, ops),
        c.len() == b.len() + 2,
        c.subrange(0, b.len() as int) == b,
        word_at(c, b.len() as int) == op.word(),
    ensures
        appends(a, c, ops.push(op)),
{
    let ops2 = ops.push(op);
    assert forall|i: int| 0 <= i < ops2.len() implies word_at(c, a.len() + 2 * i) == (
    #[trigger] ops2[i]).word() by {
        if i < ops.len() {
            let p = a.len() + 2 * i;
            assert(c.subrange(0, b.len() as int)[p] == c[p]);
            assert(c.subrange(0, b.len() as int)[p + 1] == c[p + 1]);
            assert(ops[i] == ops2[i]);
        }
    }
    assert(c.subrange(0, a.len() as int) =~= a) by {
        assert forall|x: int| 0 <= x < a.len() implies c.subrange(0, a.len() as int)[x] == a[x] by {
            assert(c.subrange(0, b.len() as int)[x] == c[x]);
            assert(b.subrange(0, a.len() as int)[x] == b[x]);
        }
    }
}

/// The rows drawn for a sprite: its declared size, kept to 1..=15 (1 when unknown).
spec fn sprite_rows(sizes: Seq<(String, usize)>, name: Seq<char>) -> u8 {
    match lookup(sizes, name) {
        Some(rows) => if 1 <= rows <= 15 {
            rows as u8
        } else if rows > 15 {
            15
        } else {
            1
        },
        None => 1,
    }
}

/// A count kept to 8 bits (255 when it is larger).
spec fn clamp_u8(c: int) -> u8 {
    if c > 255 {
        255
    } else {
        c as u8
    }
}

/// `RND res, m`, `LD tmp, n`, `SUBN tmp, res`, `SE VF, 0` after the bytes `a`, then a
/// jump back to the `RND`.
spec fn retry_code(a: Seq<u8>, b: Seq<u8>, res: Register, m: u8, n: u8, tmp: Register) -> bool {
    &&& b.len() == a.len() + 10
    &&& appends(
        a,
        b.subrange(0, a.len() + 8int),
        seq![
            Opcode::Rnd(res, m),
            Opcode::LdImm(tmp, n),
            Opcode::Subn(tmp, res),
            Opcode::SeImm(Register::VF, 0),
        ],
    )
    &&& word_at(b, a.len() + 8int) == 0x1000 + addr_of_spec(0x200usize.saturating_add(a.len() as usize))
}

/// Whether a builtin's first argument is a name that is not evaluated (a sprite for
/// `draw`, an enum for `random_enum`).
spec fn names_first(b: BuiltinFunction) -> bool {
    b is Draw || b is RandomEnum
}

/// Two more bytes that form a code word keep the code whole.
proof fn lemma_code_words_push(b: Seq<u8>, hi: u8, lo: u8)
    requires
        code_words(b, b.len() as int),
        is_code_word(hi as int * 256 + lo as int),
    ensures
        code_words(b.push(hi).push(lo), b.len() + 2 as int),
{
    let c = b.push(hi).push(lo);
    assert forall|k: int| 0 <= k < b.len() + 2 && k % 2 == 0 implies #[trigger] is_code_word(
        word_at(c, k),
    ) by {
        if k < b.len() {
            assert(word_at(c, k) == word_at(b, k));
        } else {
            assert(word_at(c, k) == hi as int * 256 + lo as int);
        }
    }
}

/// Rewriting one word on a word boundary with a code word keeps the code whole.
proof fn lemma_code_words_patch(b: Seq<u8>, off: usize, hi: u8, lo: u8)
    requires
        code_words(b, b.len() as int),
        slot(b.len() as int, off),
        is_code_word(hi as int * 256 + lo as int),
    ensures
        code_words(b.update(off as int, hi).update(off + 1, lo), b.len() as int),
{
    let c = b.update(off as int, hi).update(off + 1, lo);
    assert forall|k: int| 0 <= k < b.len() && k % 2 == 0 implies #[trigger] is_code_word(
        word_at(c, k),
    ) by {
        if k == off {
            assert(word_at(c, k) == hi as int * 256 + lo as int);
        } else {
            assert(word_at(c, k) == word_at(b, k));
        }
    }
}

/// A prefix of whole code words stays whole when more bytes follow it.
proof fn lemma_code_words_extend(b: Seq<u8>, c: Seq<u8>, n: int)
    requires
        code_words(b, n),
        n <= c.len(),
        forall|i: int| 0 <= i < n ==> c[i] == b[i],
    ensures
        code_words(c, n),
{
    assert forall|k: int| 0 <= k < n && k % 2 == 0 implies #[trigger] is_code_word(word_at(c, k)) by {
        assert(word_at(c, k) == word_at(b, k));
    }
}

/// The lists of `break` placeholders of the enclosing loops, but the innermost, are
/// unchanged, and so is their number.
spec fn breaks_kept(old: Seq<Vec<usize>>, new: Seq<Vec<usize>>, len: int) -> bool {
    &&& new.len() == old.len()
    &&& forall|i: int| 0 <= i < old.len() - 1 ==> #[trigger] new[i] == old[i]
    &&& old.len() > 0 ==> {
        let a = old[old.len() - 1]@;
        let b = new[old.len() - 1]@;
        &&& a.len() <= b.len()
        &&& forall|j: int| 0 <= j < a.len() ==> b[j] == a[j]
        &&& forall|j: int| a.len() <= j < b.len() ==> len <= #[trigger] b[j]
    }
}

/// The bytes `b` keep the bytes `a` in place.
spec fn prefix_kept(a: Seq<u8>, b: Seq<u8>) -> bool {
    &&& a.len() <= b.len()
    &&& forall|k: int| 0 <= k < a.len() ==> #[trigger] b[k] == a[k]
}

/// The register with number `i` (0-15).
fn reg(i: u8) -> (r: Register)
    requires
        i <= 15,
    ensures
        r.idx() == i,
{
    if i <= 14 {
        Register::User(UserRegister::new(i))
    } else {
        Register::Flag
    }
}

/// The address of a location counted from 0, kept to 12 bits.
pub open spec fn addr_of_spec(x: usize) -> int {
    (x % 0x1000) as int
}

/// The address of a location counted from 0, kept to 12 bits.
fn addr_of(x: usize) -> (r: Addr)
    ensures
        r.value() == x % 0x1000,
        r.value() == addr_of_spec(x),
{
    Addr::new((x % 0x1000) as u16)
}

/// The code generator.
///
/// Pass 0 registers enums and structs, pass 1 lays out the globals in the data section,
/// pass 2 generates the functions; forward references are filled in at the end and the data
/// section is appended to the code.
pub struct CodeGen {
    bytes: Vec<u8>,
    data: Vec<u8>,
    /// Function name -> code offset of its first instruction.
    fn_offsets: Vec<(String, usize)>,
    /// Function name -> what is known before generating it.
    fns: Vec<(String, FnInfo)>,
    /// Function name -> registers it uses (from a measuring run).
    usage: Vec<(String, u8)>,
    /// Global name -> offset in the data section and type.
    globals: Vec<(String, (usize, Type))>,
    /// Sprite global name -> rows.
    sprite_sizes: Vec<(String, usize)>,
    /// Enum name -> variants (a variant's value is its index).
    enums: Vec<(String, Vec<String>)>,
    /// Struct name -> fields.
    structs: Vec<(String, Vec<StructField>)>,
    /// Struct name -> size in bytes.
    struct_sizes: Vec<(String, usize)>,
    /// Bytes of scratch memory handed out so far.
    scratch_len: usize,
    /// Locals of the current function, innermost last.
    locals: Vec<(String, Binding)>,
    /// The next register to hand out.
    next_free_reg: u8,
    /// Registers below this hold locals or values still needed.
    floor: u8,
    /// The most registers in use at once in the current function.
    high_water: u8,
    /// The current function: its name, its code offset, whether it is `main`.
    current_fn: Option<(String, usize, bool)>,
    forward_refs: Vec<ForwardRef>,
    /// For each enclosing loop, the `JP` placeholders of its `break`s.
    loop_breaks: Vec<Vec<usize>>,
}

impl CodeGen {
    /// Every placeholder lies inside the code, and the registers are in range.
    pub closed spec fn wf(self) -> bool {
        &&& self.bytes@.len() % 2 == 0
        &&& code_words(self.bytes@, self.bytes@.len() as int)
        &&& forall|i: int|
            0 <= i < self.forward_refs@.len() ==> slot(
                self.bytes@.len() as int,
                #[trigger] self.forward_refs@[i].offset.0,
            )
        &&& forall|i: int, j: int|
            0 <= i < self.loop_breaks@.len() && 0 <= j < self.loop_breaks@[i]@.len() ==> slot(
                self.bytes@.len() as int,
                #[trigger] self.loop_breaks@[i]@[j],
            )
        &&& self.floor <= self.next_free_reg <= 15
        &&& self.high_water <= 15
    }

    /// What every generating step keeps: well-formedness, code that only grows with the
    /// code before it in place, the data section, the forward references and `break` lists
    /// made before (new ones lie in the new code).
    spec fn grows(old: Self, new: Self) -> bool {
        &&& new.wf()
        &&& old.bytes@.len() <= new.bytes@.len()
        &&& refs_grow(old.forward_refs@, new.forward_refs@, old.bytes@.len() as int)
        &&& prefix_kept(old.bytes@, new.bytes@)
        &&& breaks_kept(old.loop_breaks@, new.loop_breaks@, old.bytes@.len() as int)
        &&& new.data@ == old.data@
        &&& new.globals@ == old.globals@
        &&& new.fn_offsets@ == old.fn_offsets@
        &&& new.current_fn == old.current_fn
        &&& forall|k: int|
            old.forward_refs@.len() <= k < new.forward_refs@.len() && (#[trigger] new.forward_refs@[k]).kind
                is Jump ==> (old.current_fn matches Some(c) && new.forward_refs@[k].kind->Jump_0 == c.1)
    }

    /// A register expression can be computed here: its variables are in scope, in registers
    /// below the floor, and it fits in the registers left.
    spec fn ready_for(s: Self, e: Expr) -> bool {
        &&& is_reg_expr(e, local_names(s.locals@))
        &&& fits(e, s.next_free_reg as nat)
        &&& locals_below(s.locals@, s.floor as int)
    }

    /// The code of a register expression, appended to the code: it leaves the value in a
    /// fresh register above the registers in use, or in a variable's own register, and
    /// keeps the registers in use.
    spec fn emits_value(old: Self, new: Self, e: Expr, reg: Register, owned: bool) -> bool {
        &&& owned == !yields_local(e)
        &&& reg.idx() < new.next_free_reg
        &&& owned ==> old.next_free_reg <= reg.idx()
        &&& new.next_free_reg == old.next_free_reg + demand(e)
        &&& new.floor == old.floor
        &&& new.locals@ == old.locals@
        &&& old.bytes@.len() <= new.bytes@.len()
        &&& new.bytes@.subrange(0, old.bytes@.len() as int) == old.bytes@
        &&& new.forward_refs@ == old.forward_refs@
        &&& new.current_fn == old.current_fn
        &&& computes(
            new.bytes@,
            old.bytes@.len() as int,
            new.bytes@.len() as int,
            old.next_free_reg as int,
            reg.idx() as int,
            e,
            old.locals@,
        )
    }

    /// The code of `main` with a register expression as its body, appended to the code: it
    /// computes `val` into V0 and ends with a jump to itself.
    spec fn main_code(old: Self, new: Self, val: u8) -> bool {
        let e = new.bytes@.len() - 2;
        &&& old.bytes@.len() <= e
        &&& new.bytes@.subrange(0, old.bytes@.len() as int) == old.bytes@
        &&& new.forward_refs@ == old.forward_refs@
        &&& word_at(new.bytes@, e) == 0x1000 + addr_of_spec(0x200usize.saturating_add(e as usize))
        &&& forall|v: Seq<u8>|
            v.len() == 16 && 0x200 + new.bytes@.len() <= 0x1000 ==> (#[trigger] run_fwd(
                v,
                new.bytes@,
                old.bytes@.len() as int,
                e,
            ) matches Some(u) && u[0] == val)
    }

    /// A `let` of a register expression can be generated here, the floor at the registers in
    /// use.
    spec fn let_ready(s: Self, st: Stmt) -> bool {
        &&& st.kind matches StmtKind::Let { value, .. } && is_reg_expr(value, local_names(s.locals@))
            && fits(value, s.next_free_reg as nat)
        &&& s.next_free_reg + 1 <= 15
        &&& locals_below(s.locals@, s.floor as int)
        &&& s.floor == s.next_free_reg
    }

    /// The code of such a `let`: its value goes to the next register, which becomes the
    /// variable's, and the floor rises above it.
    spec fn let_done(old: Self, new: Self, st: Stmt) -> bool {
        &&& st.kind matches StmtKind::Let { name, value, .. } && new.locals@ == old.locals@.push(
            (name, Binding::Reg(old.next_free_reg)),
        ) && computes(
            new.bytes@,
            old.bytes@.len() as int,
            new.bytes@.len() as int,
            old.next_free_reg as int,
            old.next_free_reg as int,
            value,
            old.locals@,
        )
        &&& new.floor == old.next_free_reg + 1
        &&& new.next_free_reg == old.next_free_reg + 1
        &&& old.bytes@.len() <= new.bytes@.len()
        &&& new.bytes@.subrange(0, old.bytes@.len() as int) == old.bytes@
        &&& new.forward_refs@ == old.forward_refs@
        &&& new.current_fn == old.current_fn
    }

    /// The first `k` statements of a block, `let`s, have been generated from the state `o`:
    /// their variables are in the next registers, above the floor, and the code computes
    /// them.
    spec fn lets_done(o: Self, cur: Self, stmts: Seq<Stmt>, k: int) -> bool {
        &&& 0 <= k <= stmts.len()
        &&& cur.floor == o.next_free_reg + k
        &&& cur.next_free_reg == o.next_free_reg + k
        &&& cur.locals@.len() == o.locals@.len() + k
        &&& cur.locals@.subrange(0, o.locals@.len() as int) == o.locals@
        &&& locals_below(cur.locals@, cur.floor as int)
        &&& local_names(cur.locals@) == scope_upto(stmts, local_names(o.locals@), k)
        &&& o.bytes@.len() <= cur.bytes@.len()
        &&& cur.bytes@.subrange(0, o.bytes@.len() as int) == o.bytes@
        &&& cur.forward_refs@ == o.forward_refs@
        &&& cur.current_fn == o.current_fn
        &&& forall|v: Seq<u8>|
            v.len() == 16 && 0x200 + cur.bytes@.len() < 0x1000 ==> (#[trigger] run_fwd(
                v,
                cur.bytes@,
                o.bytes@.len() as int,
                cur.bytes@.len() as int,
            ) matches Some(u) && u.len() == 16 && agree_below(u, v, o.next_free_reg as int)
                && regs_env(cur.locals@, u) == env_upto(stmts, regs_env(o.locals@, v), k))
    }

    /// One more `let` generated keeps [`lets_done`].
    proof fn lemma_let_step(o: Self, cur: Self, next: Self, stmts: Seq<Stmt>, k: int)
        requires
            Self::lets_done(o, cur, stmts, k),
            k < stmts.len(),
            Self::let_done(cur, next, stmts[k]),
            locals_below(o.locals@, o.next_free_reg as int),
            o.bytes@.len() % 2 == 0,
            cur.bytes@.len() % 2 == 0,
            next.bytes@.len() % 2 == 0,
        ensures
            Self::lets_done(o, next, stmts, k + 1),
    {
        let st = stmts[k];
        let (name, value) = match st.kind {
            StmtKind::Let { name, value, .. } => (name, value),
            _ => {
                assert(false);
                arbitrary()
            },
        };
        let t = cur.next_free_reg;
        lemma_regs_env_push(cur.locals@, name, t, seq![]);
        assert(next.locals@.subrange(0, o.locals@.len() as int) =~= o.locals@) by {
            assert forall|i: int| 0 <= i < o.locals@.len() implies next.locals@[i] == o.locals@[i] by {
                assert(next.locals@[i] == cur.locals@[i]);
                assert(cur.locals@.subrange(0, o.locals@.len() as int)[i] == cur.locals@[i]);
            }
        }
        assert forall|i: int| 0 <= i < next.locals@.len() implies ((#[trigger] next.locals@[i]).1 matches Binding::Reg(
            r,
        ) && r < next.floor as int) by {
            if i < cur.locals@.len() {
                assert(next.locals@[i] == cur.locals@[i]);
            }
        }
        lemma_prefix_trans(o.bytes@, cur.bytes@, next.bytes@);
        assert forall|v: Seq<u8>| v.len() == 16 && 0x200 + next.bytes@.len() < 0x1000 implies (#[trigger] run_fwd(
            v,
            next.bytes@,
            o.bytes@.len() as int,
            next.bytes@.len() as int,
        ) matches Some(u) && u.len() == 16 && agree_below(u, v, o.next_free_reg as int)
            && regs_env(next.locals@, u) == env_upto(stmts, regs_env(o.locals@, v), k + 1)) by {
            let a = o.bytes@.len() as int;
            let m = cur.bytes@.len() as int;
            let c = next.bytes@.len() as int;
            lemma_fwd_frame(v, cur.bytes@, next.bytes@, a, m);
            lemma_fwd_seq(v, next.bytes@, a, m, c);
            let u1 = run_fwd(v, next.bytes@, a, m)->0;
            let u2 = run_fwd(u1, next.bytes@, m, c)->0;
            lemma_regs_env_agree(cur.locals@, u2, u1, cur.floor as int);
            lemma_regs_env_push(cur.locals@, name, t, u2);
            assert(regs_env(next.locals@, u2) == regs_env(cur.locals@, u2).push((name@, u2[t as int])));
            assert(env_upto(stmts, regs_env(o.locals@, v), k + 1) == env_upto(
                stmts,
                regs_env(o.locals@, v),
                k,
            ).push((name@, reg_value(value, env_upto(stmts, regs_env(o.locals@, v), k)))));
        }
        assert(local_names(next.locals@) == scope_upto(stmts, local_names(o.locals@), k + 1));
    }

    /// A block of `let`s and a final register expression computes the block's value.
    proof fn lemma_block_value(
        o: Self,
        cur: Self,
        st: Self,
        fin: Self,
        e: Expr,
        t: Expr,
        reg: Register,
        owned: bool,
    )
        requires
            e.kind matches ExprKind::Block { stmts, expr } && expr == Some(Box::new(t))
                && Self::lets_done(o, cur, stmts@, stmts@.len() as int),
            Self::emits_value(cur, st, t, reg, owned),
            locals_below(o.locals@, o.next_free_reg as int),
            o.bytes@.len() % 2 == 0,
            cur.bytes@.len() % 2 == 0,
            st.bytes@.len() % 2 == 0,
            fin.bytes@ == st.bytes@,
            fin.next_free_reg == st.next_free_reg,
            fin.locals@ == o.locals@,
            fin.floor == o.floor,
            fin.forward_refs@ == st.forward_refs@,
            fin.current_fn == st.current_fn,
        ensures
            Self::emits_value(o, fin, e, reg, owned),
    {
        let stmts = match e.kind {
            ExprKind::Block { stmts, .. } => stmts@,
            _ => arbitrary(),
        };
        let n = stmts.len() as int;
        let a = o.bytes@.len() as int;
        let m = cur.bytes@.len() as int;
        let c = fin.bytes@.len() as int;
        lemma_prefix_trans(o.bytes@, cur.bytes@, fin.bytes@);
        assert forall|v: Seq<u8>| v.len() == 16 && 0x200 + c < 0x1000 implies (#[trigger] run_fwd(v, fin.bytes@, a, c) matches Some(
            u,
        ) && u.len() == 16 && u[reg.idx() as int] == reg_value(e, regs_env(o.locals@, v))
            && agree_below(u, v, o.next_free_reg as int)) by {
            lemma_fwd_frame(v, cur.bytes@, fin.bytes@, a, m);
            lemma_fwd_seq(v, fin.bytes@, a, m, c);
            let u1 = run_fwd(v, fin.bytes@, a, m)->0;
            assert(run_fwd(u1, fin.bytes@, m, c) matches Some(u2) && u2[reg.idx() as int]
                == reg_value(t, regs_env(cur.locals@, u1)));
        }
    }

    /// The code grew by the code of comparison `op` on `l` and `r` into `c`, and nothing else
    /// that the code depends on changed.
    spec fn comparison_code(old: Self, new: Self, op: BinOp, l: Register, r: Register, c: Register) -> bool {
        let n = old.bytes@.len() as int;
        let b = new.bytes@;
        &&& new.floor == old.floor
        &&& new.locals@ == old.locals@
        &&& b.subrange(0, n) == old.bytes@
        &&& new.forward_refs@ == old.forward_refs@
        &&& new.current_fn == old.current_fn
        &&& op is Eq || op is NotEq ==> {
            &&& b.len() == n + 8
            &&& word_at(b, n) == Opcode::LdImm(c, 0).word()
            &&& word_at(b, n + 2) == (if op is NotEq {
                Opcode::SneReg(l, r)
            } else {
                Opcode::SeReg(l, r)
            }).word()
            &&& word_at(b, n + 4) == 0x1000 + addr_of_spec(
                0x200usize.saturating_add(((n + 4) as usize).saturating_add(4)),
            )
            &&& word_at(b, n + 6) == Opcode::LdImm(c, 1).word()
        }
        &&& !(op is Eq || op is NotEq) ==> {
            &&& b.len() == n + 10
            &&& word_at(b, n) == Opcode::LdReg(c, order_x(op, l, r)).word()
            &&& word_at(b, n + 2) == Opcode::Sub(c, order_y(op, l, r)).word()
            &&& word_at(b, n + 4) == Opcode::LdImm(c, 1).word()
            &&& word_at(b, n + 6) == Opcode::SeImm(Register::Flag, 0).word()
            &&& word_at(b, n + 8) == Opcode::LdImm(c, 0).word()
        }
    }

    /// The code grew by the instructions `op1` and `op2`, and nothing else that the code
    /// depends on changed.
    spec fn two_words(old: Self, new: Self, op1: Opcode, op2: Opcode) -> bool {
        &&& new.floor == old.floor
        &&& new.locals@ == old.locals@
        &&& new.bytes@.len() == old.bytes@.len() + 4
        &&& new.bytes@.subrange(0, old.bytes@.len() as int) == old.bytes@
        &&& word_at(new.bytes@, old.bytes@.len() as int) == op1.word()
        &&& word_at(new.bytes@, old.bytes@.len() + 2 as int) == op2.word()
        &&& new.forward_refs@ == old.forward_refs@
        &&& new.current_fn == old.current_fn
    }

    /// The code grew by the single instruction `op`, and nothing else that the code depends
    /// on changed.
    spec fn one_word(old: Self, new: Self, op: Opcode) -> bool {
        &&& new.floor == old.floor
        &&& new.locals@ == old.locals@
        &&& new.bytes@.len() == old.bytes@.len() + 2
        &&& new.bytes@.subrange(0, old.bytes@.len() as int) == old.bytes@
        &&& word_at(new.bytes@, old.bytes@.len() as int) == op.word()
        &&& new.forward_refs@ == old.forward_refs@
        &&& new.current_fn == old.current_fn
    }

    /// A step that also leaves the register floor where it was.
    spec fn step(old: Self, new: Self) -> bool {
        &&& Self::grows(old, new)
        &&& new.floor == old.floor
    }

    /// Every placeholder of a well-formed generator lies inside the code.
    proof fn lemma_refs_below(s: Self)
        requires
            s.wf(),
        ensures
            forall|i: int|
                0 <= i < s.forward_refs@.len() ==> slot(
                    s.bytes@.len() as int,
                    #[trigger] s.forward_refs@[i].offset.0,
                ),
    {
    }

    /// Code that grows, with the placeholders and registers untouched, keeps `wf`.
    proof fn lemma_wf_grow(a: Self, b: Self)
        requires
            a.wf(),
            b.forward_refs@ == a.forward_refs@,
            b.loop_breaks@ == a.loop_breaks@,
            b.floor == a.floor,
            b.next_free_reg == a.next_free_reg,
            b.high_water == a.high_water,
            b.bytes@.len() >= a.bytes@.len(),
            b.bytes@.len() % 2 == 0,
            code_words(b.bytes@, b.bytes@.len() as int),
        ensures
            b.wf(),
    {
        assert forall|i: int| 0 <= i < b.forward_refs@.len() implies slot(
            b.bytes@.len() as int,
            #[trigger] b.forward_refs@[i].offset.0,
        ) by {
            assert(slot(a.bytes@.len() as int, a.forward_refs@[i].offset.0));
        }
        assert forall|i: int, j: int|
            0 <= i < b.loop_breaks@.len() && 0 <= j < b.loop_breaks@[i]@.len() implies slot(
                b.bytes@.len() as int,
                #[trigger] b.loop_breaks@[i]@[j],
            ) by {
            assert(slot(a.bytes@.len() as int, a.loop_breaks@[i]@[j]));
        }
    }

    /// The reads of globals in the code: `(offset, name)` when the word at `offset` is the
    /// `LD I` placed for a read of the global `name` (the last reference left open there).
    pub closed spec fn global_loads(self) -> Set<(int, Seq<char>)> {
        Set::new(
            |p: (int, Seq<char>)|
                exists|i: int|
                    0 <= i < self.forward_refs@.len() && #[trigger] self.forward_refs@[i].offset.0 == p.0
                        && (self.forward_refs@[i].kind matches RefKind::Global(n) && n@ == p.1) && (
                    forall|j: int|
                        i < j < self.forward_refs@.len() ==> self.forward_refs@[j].offset.0 != p.0),
        )
    }

    /// The calls in the code: `(offset, name)` when the word at `offset` is the `CALL` placed
    /// for a call of the function `name` (the last reference left open there).
    pub closed spec fn calls(self) -> Set<(int, Seq<char>)> {
        Set::new(
            |p: (int, Seq<char>)|
                exists|i: int|
                    0 <= i < self.forward_refs@.len() && #[trigger] self.forward_refs@[i].offset.0 == p.0
                        && (self.forward_refs@[i].kind matches RefKind::Call(n) && n@ == p.1) && (
                    forall|j: int|
                        i < j < self.forward_refs@.len() ==> self.forward_refs@[j].offset.0 != p.0),
        )
    }

    /// The tail jumps in the code: `(offset, target)` when the word at `offset` is the `JP`
    /// placed for a call of the current function in tail position (the last reference left
    /// open there), to the function's start `target`.
    pub closed spec fn tail_jumps(self) -> Set<(int, usize)> {
        Set::new(
            |p: (int, usize)|
                exists|i: int|
                    0 <= i < self.forward_refs@.len() && #[trigger] self.forward_refs@[i].offset.0 == p.0
                        && self.forward_refs@[i].kind == RefKind::Jump(p.1) && (forall|j: int|
                        i < j < self.forward_refs@.len() ==> self.forward_refs@[j].offset.0 != p.0),
        )
    }

    /// Nothing generated yet.
    pub closed spec fn is_empty(self) -> bool {
        &&& self.bytes@.len() == 0
        &&& self.data@.len() == 0
        &&& self.loop_breaks@.len() == 0
        &&& self.forward_refs@.len() == 0
        &&& self.globals@.len() == 0
        &&& self.fn_offsets@.len() == 0
        &&& self.enums@.len() == 0
    }

    pub fn new() -> (r: Self)
        ensures
            r.wf(),
            r.is_empty(),
    {
        Self {
            bytes: Vec::new(),
            data: Vec::new(),
            fn_offsets: Vec::new(),
            fns: Vec::new(),
            usage: Vec::new(),
            globals: Vec::new(),
            sprite_sizes: Vec::new(),
            enums: Vec::new(),
            structs: Vec::new(),
            struct_sizes: Vec::new(),
            scratch_len: 0,
            locals: Vec::new(),
            next_free_reg: 0,
            floor: 0,
            high_water: 0,
            current_fn: None,
            forward_refs: Vec::new(),
            loop_breaks: Vec::new(),
        }
    }

    /// Generates the ROM image of a program: the code, then the data section.
    ///
    /// The code starts with a jump to `main`; `main` ends by jumping to itself.
    pub fn generate(&mut self, program: &Program) -> (r: Vec<u8>)
        ensures
            r@.len() >= 2,
            defines_main(*program) ==> 0x10 <= r@[0] < 0x20,
            r@.len() >= data_section(program.top_levels@).len(),
            r@.subrange(r@.len() - data_section(program.top_levels@).len(), r@.len() as int)
                == data_section(program.top_levels@),
            (r@.len() - data_section(program.top_levels@).len()) % 2 == 0,
            code_words(r@, r@.len() - data_section(program.top_levels@).len()),
            defines_main(*program) ==> entry_in_code(
                r@,
                r@.len() - data_section(program.top_levels@).len(),
            ),
            register_main_body(*program) matches Some(body) ==> r@.len() <= 0xE00 ==> forall|v: Seq<u8>|
                v.len() == 16 ==> #[trigger] halts_with_v0(r@, v, reg_value(body, seq![])),
            exists|starts: Seq<int>, ends: Seq<int>|
                #[trigger] rom_layout(
                    r@,
                    program.top_levels@,
                    r@.len() - data_section(program.top_levels@).len(),
                    starts,
                    ends,
                ) && calls_land(r@, program.top_levels@, starts, final(self).calls()) && jumps_land(
                    r@,
                    program.top_levels@,
                    starts,
                    ends,
                    final(self).tail_jumps(),
                ),
            forall|off: int, name: Seq<char>|
                #[trigger] final(self).global_loads().contains((off, name)) && global_offset(
                    program.top_levels@,
                    name,
                ) is Some ==> 2 <= off && off + 2 <= r@.len() - data_section(program.top_levels@).len()
                    && word_at(r@, off) == 0xA000 + addr_of_spec(
                    0x200usize.saturating_add(
                        (r@.len() - data_section(program.top_levels@).len()) as usize,
                    ).saturating_add(global_offset(program.top_levels@, name)->0 as usize),
                ),
    {
        // a measuring run finds how many registers each function uses
        let mut measure = CodeGen::new();
        measure.run(program);
        let usage = measure.take_usage();
        let mut fresh = CodeGen::new();
        fresh.usage = usage;
        let r = fresh.run(program);
        *self = fresh;
        r
    }

    /// The register usage recorded for every function.
    fn take_usage(&mut self) -> Vec<(String, u8)> {
        let mut u: Vec<(String, u8)> = Vec::new();
        std::mem::swap(&mut u, &mut self.usage);
        u
    }

    /// The ROM: the code followed by the data section.
    fn assemble(&self) -> (r: Vec<u8>)
        ensures
            r@ == self.bytes@ + self.data@,
    {
        let mut result: Vec<u8> = Vec::new();
        let mut k: usize = 0;
        while k < self.bytes.len()
            invariant
                k <= self.bytes@.len(),
                result@ == self.bytes@.take(k as int),
            decreases self.bytes.len() - k,
        {
            result.push(self.bytes[k]);
            k = k + 1;
            proof {
                assert(result@ =~= self.bytes@.take(k as int));
            }
        }
        let mut k: usize = 0;
        while k < self.data.len()
            invariant
                k <= self.data@.len(),
                result@ == self.bytes@ + self.data@.take(k as int),
            decreases self.data.len() - k,
        {
            result.push(self.data[k]);
            k = k + 1;
            proof {
                assert(result@ =~= self.bytes@ + self.data@.take(k as int));
            }
        }
        proof {
            assert(self.bytes@.take(self.bytes@.len() as int) =~= self.bytes@);
            assert(self.data@.take(self.data@.len() as int) =~= self.data@);
        }
        result
    }

    /// Records that the function `name` starts at code offset `start` (a later definition of
    /// the name replaces an earlier one).
    fn record_fn_start(&mut self, name: &String, start: usize)
        ensures
            forall|k: Seq<char>|
                #[trigger] lookup(final(self).fn_offsets@, k) == if k == name@ {
                    Some(start)
                } else {
                    lookup(old(self).fn_offsets@, k)
                },
            final(self).bytes@ == old(self).bytes@,
            final(self).data@ == old(self).data@,
            final(self).loop_breaks@ == old(self).loop_breaks@,
            final(self).forward_refs@ == old(self).forward_refs@,
            final(self).globals@ == old(self).globals@,
            final(self).floor == old(self).floor,
            final(self).next_free_reg == old(self).next_free_reg,
            final(self).high_water == old(self).high_water,
    {
        let ghost f0 = self.fn_offsets@;
        let key = name.clone();
        let ghost gk = key;
        insert_key(&mut self.fn_offsets, key, start);
        proof {
            assert forall|k: Seq<char>| #[trigger] lookup(self.fn_offsets@, k) == if k == name@ {
                Some(start)
            } else {
                lookup(f0, k)
            } by {
                lemma_lookup_after_insert(f0, self.fn_offsets@, gk, start, k);
            }
        }
    }

    /// After the references are filled in, each call in the code is a `CALL` to the start of
    /// the last function of its name.
    proof fn lemma_calls_resolved(
        pre: Self,
        b_res: Seq<u8>,
        fin: Self,
        result: Seq<u8>,
        tops: Seq<TopLevel>,
        starts: Seq<int>,
    )
        requires
            pre.wf(),
            fin.forward_refs@ == pre.forward_refs@,
            b_res.len() == pre.bytes@.len(),
            fin.bytes@.len() == b_res.len(),
            forall|x: int| 2 <= x < b_res.len() ==> fin.bytes@[x] == b_res[x],
            result.len() >= fin.bytes@.len(),
            forall|x: int| 0 <= x < fin.bytes@.len() ==> result[x] == fin.bytes@[x],
            forall|k: int| 0 <= k < pre.forward_refs@.len() ==> 2 <= (#[trigger] pre.forward_refs@[k]).offset.0,
            forall|k: Seq<char>|
                (#[trigger] lookup(pre.fn_offsets@, k) is Some) == (last_fn_def(tops, k) is Some),
            forall|k: Seq<char>|
                #[trigger] lookup(pre.fn_offsets@, k) matches Some(o) ==> last_fn_def(tops, k) matches Some(j)
                    && o == starts[j],
            forall|i: int|
                0 <= i < pre.forward_refs@.len() && (forall|j: int|
                    i < j < pre.forward_refs@.len() ==> pre.forward_refs@[j].offset.0
                        != pre.forward_refs@[i].offset.0) && pre.ref_word(
                    #[trigger] pre.forward_refs@[i],
                ) is Some ==> word_at(b_res, pre.forward_refs@[i].offset.0 as int)
                    == pre.ref_word(pre.forward_refs@[i])->0,
        ensures
            calls_land(result, tops, starts, fin.calls()),
    {
        let refs = pre.forward_refs@;
        assert forall|off: int, name: Seq<char>|
            #[trigger] fin.calls().contains((off, name)) && last_fn_def(tops, name) is Some implies word_at(
                result,
                off,
            ) == 0x2000 + addr_of_spec(0x200usize.saturating_add(starts[last_fn_def(tops, name)->0] as usize)) by {
            let i = choose|i: int|
                0 <= i < fin.forward_refs@.len() && #[trigger] fin.forward_refs@[i].offset.0 == off
                    && (fin.forward_refs@[i].kind matches RefKind::Call(n) && n@ == name) && (
                forall|j: int|
                    i < j < fin.forward_refs@.len() ==> fin.forward_refs@[j].offset.0 != off);
            assert(lookup(pre.fn_offsets@, name) is Some);
            assert(slot(pre.bytes@.len() as int, refs[i].offset.0));
            assert(2 <= refs[i].offset.0);
            assert(pre.ref_word(refs[i]) is Some);
            assert(word_at(b_res, off) == pre.ref_word(refs[i])->0);
            assert(word_at(fin.bytes@, off) == word_at(b_res, off));
            assert(word_at(result, off) == word_at(fin.bytes@, off));
        }
    }

    /// After the references are filled in, each tail jump in the code is a `JP` to the start
    /// of the function that holds it.
    proof fn lemma_jumps_resolved(
        pre: Self,
        b_res: Seq<u8>,
        fin: Self,
        result: Seq<u8>,
        tops: Seq<TopLevel>,
        starts: Seq<int>,
        ends: Seq<int>,
    )
        requires
            pre.wf(),
            fin.forward_refs@ == pre.forward_refs@,
            b_res.len() == pre.bytes@.len(),
            fin.bytes@.len() == b_res.len(),
            forall|x: int| 2 <= x < b_res.len() ==> fin.bytes@[x] == b_res[x],
            result.len() >= fin.bytes@.len(),
            forall|x: int| 0 <= x < fin.bytes@.len() ==> result[x] == fin.bytes@[x],
            forall|k: int| 0 <= k < pre.forward_refs@.len() ==> 2 <= (#[trigger] pre.forward_refs@[k]).offset.0,
            jumps_in_fns(pre.forward_refs@, tops, tops.len() as int, starts, ends),
            forall|i: int|
                0 <= i < pre.forward_refs@.len() && (forall|j: int|
                    i < j < pre.forward_refs@.len() ==> pre.forward_refs@[j].offset.0
                        != pre.forward_refs@[i].offset.0) && pre.ref_word(
                    #[trigger] pre.forward_refs@[i],
                ) is Some ==> word_at(b_res, pre.forward_refs@[i].offset.0 as int)
                    == pre.ref_word(pre.forward_refs@[i])->0,
        ensures
            jumps_land(result, tops, starts, ends, fin.tail_jumps()),
    {
        let refs = pre.forward_refs@;
        assert forall|off: int, t: usize| #[trigger] fin.tail_jumps().contains((off, t)) implies word_at(
            result,
            off,
        ) == 0x1000 + addr_of_spec(0x200usize.saturating_add(t)) && exists|j: int|
            0 <= j < tops.len() && #[trigger] tops[j] is FnDef && starts[j] == t && starts[j] <= off
                < ends[j] by {
            let i = choose|i: int|
                0 <= i < fin.forward_refs@.len() && #[trigger] fin.forward_refs@[i].offset.0 == off
                    && fin.forward_refs@[i].kind == RefKind::Jump(t) && (forall|j: int|
                    i < j < fin.forward_refs@.len() ==> fin.forward_refs@[j].offset.0 != off);
            assert(slot(pre.bytes@.len() as int, refs[i].offset.0));
            assert(2 <= refs[i].offset.0);
            assert(pre.ref_word(refs[i]) is Some);
            assert(word_at(b_res, off) == pre.ref_word(refs[i])->0);
            assert(word_at(fin.bytes@, off) == word_at(b_res, off));
            assert(word_at(result, off) == word_at(fin.bytes@, off));
            assert(refs[i].kind is Jump);
        }
    }

    /// After the references are filled in, each read of a global in the code is an `LD I`
    /// of the global's place in the data section, which follows the code.
    proof fn lemma_loads_resolved(
        pre: Self,
        b_res: Seq<u8>,
        fin: Self,
        result: Seq<u8>,
        tops: Seq<TopLevel>,
        gl: Seq<(String, (usize, Type))>,
    )
        requires
            pre.wf(),
            pre.globals@ == gl,
            fin.forward_refs@ == pre.forward_refs@,
            b_res.len() == pre.bytes@.len(),
            fin.bytes@.len() == b_res.len(),
            forall|x: int| 2 <= x < b_res.len() ==> fin.bytes@[x] == b_res[x],
            result.len() >= fin.bytes@.len(),
            forall|x: int| 0 <= x < fin.bytes@.len() ==> result[x] == fin.bytes@[x],
            forall|k: int| 0 <= k < pre.forward_refs@.len() ==> 2 <= (#[trigger] pre.forward_refs@[k]).offset.0,
            forall|k: Seq<char>| (#[trigger] lookup(gl, k) is Some) == (global_offset(tops, k) is Some),
            forall|k: Seq<char>|
                #[trigger] lookup(gl, k) matches Some(g) ==> global_offset(tops, k) == Some(g.0 as int),
            forall|i: int|
                0 <= i < pre.forward_refs@.len() && (forall|j: int|
                    i < j < pre.forward_refs@.len() ==> pre.forward_refs@[j].offset.0
                        != pre.forward_refs@[i].offset.0) && pre.ref_word(
                    #[trigger] pre.forward_refs@[i],
                ) is Some ==> word_at(b_res, pre.forward_refs@[i].offset.0 as int)
                    == pre.ref_word(pre.forward_refs@[i])->0,
        ensures
            forall|off: int, name: Seq<char>|
                #[trigger] fin.global_loads().contains((off, name)) && global_offset(tops, name) is Some
                    ==> 2 <= off && off + 2 <= fin.bytes@.len() && word_at(result, off) == 0xA000
                    + addr_of_spec(
                    0x200usize.saturating_add(fin.bytes@.len() as usize).saturating_add(
                        global_offset(tops, name)->0 as usize,
                    ),
                ),
    {
        let refs = pre.forward_refs@;
        assert forall|off: int, name: Seq<char>|
            #[trigger] fin.global_loads().contains((off, name)) && global_offset(tops, name) is Some
                implies 2 <= off && off + 2 <= fin.bytes@.len() && word_at(result, off) == 0xA000
                + addr_of_spec(
                0x200usize.saturating_add(fin.bytes@.len() as usize).saturating_add(
                    global_offset(tops, name)->0 as usize,
                ),
            ) by {
            let i = choose|i: int|
                0 <= i < fin.forward_refs@.len() && #[trigger] fin.forward_refs@[i].offset.0 == off
                    && (fin.forward_refs@[i].kind matches RefKind::Global(n) && n@ == name) && (
                forall|j: int|
                    i < j < fin.forward_refs@.len() ==> fin.forward_refs@[j].offset.0 != off);
            assert(lookup(gl, name) is Some);
            let g = lookup(gl, name)->0;
            assert(global_offset(tops, name) == Some(g.0 as int));
            assert(slot(pre.bytes@.len() as int, refs[i].offset.0));
            assert(2 <= refs[i].offset.0);
            assert(pre.ref_word(refs[i]) is Some);
            assert(word_at(b_res, off) == pre.ref_word(refs[i])->0);
            assert(word_at(fin.bytes@, off) == word_at(b_res, off));
            assert(word_at(result, off) == word_at(fin.bytes@, off));
        }
    }

    /// What code generation knows of a program before any code: its types and enums, the
    /// data section of its globals, and its functions' signatures.
    fn register_program(&mut self, program: &Program)
        requires
            old(self).wf(),
            old(self).data@.len() == 0,
            old(self).globals@.len() == 0,
            old(self).enums@.len() == 0,
        ensures
            final(self).wf(),
            final(self).bytes@ == old(self).bytes@,
            final(self).loop_breaks@ == old(self).loop_breaks@,
            final(self).forward_refs@ == old(self).forward_refs@,
            final(self).fn_offsets@ == old(self).fn_offsets@,
            final(self).data@ == data_section(program.top_levels@),
            final(self).declares_enums(program.top_levels@),
            forall|k: Seq<char>|
                (#[trigger] lookup(final(self).globals@, k) is Some) == (global_offset(
                    program.top_levels@,
                    k,
                ) is Some),
            forall|k: Seq<char>|
                #[trigger] lookup(final(self).globals@, k) matches Some(g) ==> global_offset(
                    program.top_levels@,
                    k,
                ) == Some(g.0 as int),
    {
        // the scratch byte that keeps V0 while memory is copied
        self.scratch_len = 1;
        self.register_types(program);
        let ghost en = self.enums@;
        proof {
            reveal(CodeGen::declares_enums);
        }
        self.layout_globals(program);
        self.register_functions(program);
        proof {
            reveal(CodeGen::declares_enums);
        }
    }

    #[verifier::spinoff_prover]
    #[verifier::rlimit(100)]
    fn run(&mut self, program: &Program) -> (r: Vec<u8>)
        requires
            old(self).wf(),
            old(self).bytes@.len() == 0,
            old(self).data@.len() == 0,
            old(self).loop_breaks@.len() == 0,
            old(self).forward_refs@.len() == 0,
            old(self).globals@.len() == 0,
            old(self).fn_offsets@.len() == 0,
            old(self).enums@.len() == 0,
        ensures
            final(self).wf(),
            r@.len() >= 2,
            defines_main(*program) ==> 0x10 <= r@[0] < 0x20,
            r@.len() >= data_section(program.top_levels@).len(),
            r@.subrange(r@.len() - data_section(program.top_levels@).len(), r@.len() as int)
                == data_section(program.top_levels@),
            (r@.len() - data_section(program.top_levels@).len()) % 2 == 0,
            code_words(r@, r@.len() - data_section(program.top_levels@).len()),
            defines_main(*program) ==> entry_in_code(
                r@,
                r@.len() - data_section(program.top_levels@).len(),
            ),
            register_main_body(*program) matches Some(body) ==> r@.len() <= 0xE00 ==> forall|v: Seq<u8>|
                v.len() == 16 ==> #[trigger] halts_with_v0(r@, v, reg_value(body, seq![])),
            exists|starts: Seq<int>, ends: Seq<int>|
                #[trigger] rom_layout(
                    r@,
                    program.top_levels@,
                    r@.len() - data_section(program.top_levels@).len(),
                    starts,
                    ends,
                ) && calls_land(r@, program.top_levels@, starts, final(self).calls()) && jumps_land(
                    r@,
                    program.top_levels@,
                    starts,
                    ends,
                    final(self).tail_jumps(),
                ),
            forall|off: int, name: Seq<char>|
                #[trigger] final(self).global_loads().contains((off, name)) && global_offset(
                    program.top_levels@,
                    name,
                ) is Some ==> 2 <= off && off + 2 <= r@.len() - data_section(program.top_levels@).len()
                    && word_at(r@, off) == 0xA000 + addr_of_spec(
                    0x200usize.saturating_add(
                        (r@.len() - data_section(program.top_levels@).len()) as usize,
                    ).saturating_add(global_offset(program.top_levels@, name)->0 as usize),
                ),
    {
        self.register_program(program);
        let ghost data = self.data@;
        let ghost gl = self.globals@;
        // JP main, filled in below
        let main_jp = self.emit_placeholder();
        // where the last function named `main` starts (a later definition replaces an earlier one)
        let mut main_start: Option<usize> = None;
        let ghost tops = program.top_levels@;
        let ghost mut starts: Seq<int> = seq![];
        let ghost mut ends: Seq<int> = seq![];
        let ghost mut mi: int = 0;
        proof {
            assert(self.forward_refs@.len() == 0);
            assert forall|k: Seq<char>| !(#[trigger] lookup(self.fn_offsets@, k) is Some) by {
                assert(!has_key(self.fn_offsets@, k));
            }
            assert(tops.take(0) =~= Seq::<TopLevel>::empty());
        }
        let mut i: usize = 0;
        while i < program.top_levels.len()
            invariant
                i <= program.top_levels@.len(),
                tops == program.top_levels@,
                self.wf(),
                self.bytes@.len() >= 2,
                layout_upto(self.bytes@, self.forward_refs@, tops, i as int, starts, ends),
                main_start matches Some(m) ==> 0 <= mi < i && is_main_def(tops[mi]) && m == starts[mi]
                    && forall|j: int| mi < j < i ==> !is_main_def(#[trigger] tops[j]),
                main_start is None ==> forall|j: int| 0 <= j < i ==> !is_main_def(#[trigger] tops[j]),
                self.data@ == data,
                data == data_section(program.top_levels@),
                self.loop_breaks@.len() == 0,
                main_jp == 0,
                slot(self.bytes@.len() as int, main_jp),
                register_main_body(*program) is Some ==> self.forward_refs@.len() == 0,
                register_main_body(*program) is Some && i == 0 ==> self.bytes@.len() == 2,
                register_main_body(*program) matches Some(body) ==> (i >= 1 ==> main_start == Some(2usize)
                    && main_rom(self.bytes@, reg_value(body, seq![]))),
                main_start is Some <==> exists|j: int|
                    0 <= j < i && #[trigger] is_main_def(program.top_levels@[j]),
                main_start matches Some(m) ==> 2 <= m < self.bytes@.len(),
                self.globals@ == gl,
                forall|k: int|
                    0 <= k < self.forward_refs@.len() ==> 2 <= (#[trigger] self.forward_refs@[k]).offset.0,
                forall|k: Seq<char>|
                    (#[trigger] lookup(self.fn_offsets@, k) is Some) == (last_fn_def(
                        tops.take(i as int),
                        k,
                    ) is Some),
                forall|k: Seq<char>|
                    #[trigger] lookup(self.fn_offsets@, k) matches Some(o) ==> last_fn_def(
                        tops.take(i as int),
                        k,
                    ) matches Some(j) && 0 <= j < i && o == starts[j],
                jumps_in_fns(self.forward_refs@, tops, i as int, starts, ends),
            decreases program.top_levels.len() - i,
        {
            let ghost b1 = self.bytes@;
            let ghost refs1 = self.forward_refs@;
            let ghost old_start = main_start;
            let ghost f0 = self.fn_offsets@;
            let ghost starts0 = starts;
            let ghost ends0 = ends;
            proof {
                assert(tops.take(i + 1).drop_last() =~= tops.take(i as int));
                assert(tops.take(i + 1).last() == tops[i as int]);
            }
            if let TopLevel::FnDef { name, params, body, .. } = &program.top_levels[i] {
                let start = self.here();
                self.record_fn_start(name, start);
                if text_is(name, &['m', 'a', 'i', 'n']) {
                    main_start = Some(start);
                }
                proof {
                    if name@ == seq!['m', 'a', 'i', 'n'] {
                        assert(is_main_def(program.top_levels@[i as int]));
                    }
                }
                self.current_fn = Some((name.clone(), start, text_is(name, &['m', 'a', 'i', 'n'])));
                self.codegen_function(name, params, body);
                self.current_fn = None;
                proof {
                    let ii = i as int;
                    assert forall|k: int| 0 <= k < refs1.len() implies (#[trigger] refs1[k]).offset.0 + 1
                        < b1.len() by {
                        assert(slot(b1.len() as int, refs1[k].offset.0));
                    }
                    assert(fn_placed(self.bytes@, tops[ii], self.bytes@.len() as int, b1.len() as int, self.bytes@.len() - 2));
                    lemma_layout_push(b1, self.bytes@, refs1, self.forward_refs@, tops, ii, starts, ends);
                    if name@ == seq!['m', 'a', 'i', 'n'] {
                        mi = ii;
                    }
                    starts = starts.push(b1.len() as int);
                    ends = ends.push(self.bytes@.len() - 2);
                    lemma_offsets_step(f0, self.fn_offsets@, tops, ii, starts0, starts, start);
                    lemma_jumps_step(refs1, self.forward_refs@, tops, ii, starts0, ends0, starts, ends);
                }
            } else {
                proof {
                    lemma_layout_skip(b1, refs1, tops, i as int, starts, ends);
                    starts = starts.push(0);
                    ends = ends.push(0);
                    lemma_offsets_step(f0, self.fn_offsets@, tops, i as int, starts0, starts, 0);
                    lemma_jumps_step(refs1, self.forward_refs@, tops, i as int, starts0, ends0, starts, ends);
                }
            }
            i = i + 1;
        }
        let ghost b_loop = self.bytes@;
        let ghost refs_loop = self.forward_refs@;
        proof {
            assert forall|k: int| 0 <= k < refs_loop.len() implies (#[trigger] refs_loop[k]).offset.0 % 2 == 0 by {
                assert(slot(b_loop.len() as int, refs_loop[k].offset.0));
            }
        }
        let ghost pre = *self;
        self.resolve_forward_refs();
        let ghost b_res = self.bytes@;
        let ghost before_patch = self.bytes@;
        // the program starts with a jump to `main`
        if let Some(off) = main_start {
            self.patch_at(main_jp, Opcode::Jp(addr_of(0x200usize.saturating_add(off))));
            proof {
                assert(word_at(self.bytes@, 0) == 0x1000 + addr_of_spec(0x200usize.saturating_add(off)));
                if 0x200 + self.bytes@.len() <= 0x1000 {
                    assert(0x200usize.saturating_add(off) == 0x200 + off);
                    assert(addr_of_spec(0x200usize.saturating_add(off)) == 0x200 + off);
                }
            }
        }
        proof {
            if register_main_body(*program) is Some {
                let val = reg_value(register_main_body(*program)->0, seq![]);
                let b = self.bytes@;
                let e = b.len() - 2;
                assert forall|i: int| 2 <= i < e implies b[i] == before_patch[i] by {}
                assert forall|v: Seq<u8>| v.len() == 16 && 0x200 + b.len() <= 0x1000 implies (#[trigger] run_fwd(
                    v,
                    b,
                    2,
                    e,
                ) matches Some(u) && u[0] == val) by {
                    lemma_fwd_frame(v, before_patch, b, 2, e);
                }
                assert(word_at(b, e) == word_at(before_patch, e));
                assert(main_rom(b, val));
                assert(word_at(b, 0) == 0x1202);
            }
        }
        let result = self.assemble();
        proof {
            lemma_code_words_extend(self.bytes@, result@, self.bytes@.len() as int);
            lemma_layout_final(
                b_loop,
                refs_loop,
                b_res,
                self.bytes@,
                result@,
                tops,
                starts,
                ends,
                main_start,
                mi,
            );
            assert(rom_layout(result@, tops, self.bytes@.len() as int, starts, ends));
            if register_main_body(*program) is Some && result@.len() <= 0xE00 {
                let tops = program.top_levels@;
                assert(tops.drop_last().len() == 0);
                assert(data_section(tops.drop_last()) =~= Seq::<u8>::empty());
                assert(result@ =~= self.bytes@);
                lemma_main_rom_halts(result@, reg_value(register_main_body(*program)->0, seq![]));
            }
            assert(result@.subrange(
                result@.len() - self.data@.len(),
                result@.len() as int,
            ) =~= self.data@);
            assert(result@.len() - data_section(tops).len() == self.bytes@.len());
            assert(self.forward_refs@ == refs_loop);
            Self::lemma_loads_resolved(pre, b_res, *self, result@, tops, gl);
            assert(tops.take(tops.len() as int) =~= tops);
            Self::lemma_calls_resolved(pre, b_res, *self, result@, tops, starts);
            Self::lemma_jumps_resolved(pre, b_res, *self, result@, tops, starts, ends);
            assert(rom_layout(result@, tops, self.bytes@.len() as int, starts, ends) && calls_land(
                result@,
                tops,
                starts,
                self.calls(),
            ) && jumps_land(result@, tops, starts, ends, self.tail_jumps()));
        }
        result
    }

    // ---- passes before code generation ----

    fn register_types(&mut self, program: &Program)
        requires
            old(self).wf(),
            old(self).enums@.len() == 0,
        ensures
            final(self).wf(),
            final(self).declares_enums(program.top_levels@),
            final(self).bytes@ == old(self).bytes@,
            final(self).data@ == old(self).data@,
            final(self).loop_breaks@ == old(self).loop_breaks@,
            final(self).forward_refs@ == old(self).forward_refs@,
            final(self).globals@ == old(self).globals@,
            final(self).fn_offsets@ == old(self).fn_offsets@,
            final(self).current_fn == old(self).current_fn,
    {
        let mut i: usize = 0;
        proof {
            reveal(CodeGen::declares_enums);
            assert(program.top_levels@.take(0) =~= Seq::<TopLevel>::empty());
            assert forall|n: Seq<char>| !(#[trigger] lookup(self.enums@, n) is Some) by {
                assert(!has_key(self.enums@, n));
            }
        }
        while i < program.top_levels.len()
            invariant
                self.wf(),
                self.bytes@ == old(self).bytes@,
                self.data@ == old(self).data@,
                self.loop_breaks@ == old(self).loop_breaks@,
                self.forward_refs@ == old(self).forward_refs@,
                self.globals@ == old(self).globals@,
                self.fn_offsets@ == old(self).fn_offsets@,
                self.current_fn == old(self).current_fn,
                i <= program.top_levels@.len(),
                self.declares_enums(program.top_levels@.take(i as int)),
            decreases program.top_levels.len() - i,
        {
            let ghost tops = program.top_levels@;
            let ghost e0 = self.enums@;
            proof {
                reveal(CodeGen::declares_enums);
                assert(tops.take(i + 1).drop_last() =~= tops.take(i as int));
                assert(tops.take(i + 1).last() == tops[i as int]);
            }
            match &program.top_levels[i] {
                TopLevel::EnumDef { name, variants, .. } => {
                    let vs = clone_names(variants);
                    let key = name.clone();
                    let ghost gv = vs;
                    let ghost gk = key;
                    insert_key(&mut self.enums, key, vs);
                    proof {
                        reveal(CodeGen::declares_enums);
                        assert(names_of(gv@) =~= names_of(variants@));
                        assert forall|n: Seq<char>|
                            (#[trigger] lookup(self.enums@, n) is Some) == (enum_decl(tops.take(i + 1), n)
                                is Some) && (lookup(self.enums@, n) matches Some(w) ==> names_of(w@)
                                == enum_decl(tops.take(i + 1), n)->0) by {
                            lemma_lookup_after_insert(e0, self.enums@, gk, gv, n);
                        }
                    }
                },
                TopLevel::StructDef { name, fields, .. } => {
                    insert_key(&mut self.structs, name.clone(), crate::analyzer::clone_fields(fields));
                },
                _ => {},
            }
            proof {
                reveal(CodeGen::declares_enums);
                if !(tops[i as int] is EnumDef) {
                    assert(self.enums@ == e0);
                    assert forall|n: Seq<char>|
                        (#[trigger] lookup(self.enums@, n) is Some) == (enum_decl(tops.take(i + 1), n) is Some)
                            && (lookup(self.enums@, n) matches Some(w) ==> names_of(w@) == enum_decl(
                            tops.take(i + 1),
                            n,
                        )->0) by {
                        assert(enum_decl(tops.take(i + 1), n) == enum_decl(tops.take(i as int), n));
                    }
                }
            }
            i = i + 1;
        }
        proof {
            assert(program.top_levels@.take(i as int) =~= program.top_levels@);
        }
        let ghost en = self.enums@;
        let mut i: usize = 0;
        while i < self.structs.len()
            invariant
                self.wf(),
                self.enums@ == en,
                self.declares_enums(program.top_levels@),
                self.bytes@ == old(self).bytes@,
                self.data@ == old(self).data@,
                self.loop_breaks@ == old(self).loop_breaks@,
                self.forward_refs@ == old(self).forward_refs@,
                self.globals@ == old(self).globals@,
                self.fn_offsets@ == old(self).fn_offsets@,
                self.current_fn == old(self).current_fn,
            decreases self.structs.len() - i,
        {
            let n = self.structs[i].0.clone();
            let size = self.compute_struct_size(&n, self.structs.len());
            self.struct_sizes.push((n, size));
            proof {
                reveal(CodeGen::declares_enums);
            }
            i = i + 1;
        }
    }

    /// The size of a struct, counting nested structs inline; `fuel` bounds the nesting
    /// (a struct that contains itself counts 1 at the cut).
    fn compute_struct_size(&self, name: &String, fuel: usize) -> (r: usize)
        decreases fuel,
    {
        if fuel == 0 {
            return 1;
        }
        let si = match find_key(&self.structs, name) {
            Some(si) => si,
            None => return 1,
        };
        let mut total: usize = 0;
        let mut k: usize = 0;
        while k < self.structs[si].1.len()
            invariant
                si < self.structs@.len(),
                k <= self.structs@[si as int].1@.len(),
                fuel > 0,
            decreases self.structs@[si as int].1@.len() - k,
        {
            let fsize = match &self.structs[si].1[k].ty {
                Type::UserType(n) => {
                    if find_key(&self.structs, n).is_some() {
                        self.compute_struct_size(n, fuel - 1)
                    } else {
                        1
                    }
                },
                _ => 1,
            };
            total = total.saturating_add(fsize);
            k = k + 1;
        }
        if total > 0x400 {
            0x400
        } else {
            total
        }
    }

    /// The size of a struct type.
    fn struct_size(&self, name: &String) -> (r: usize)
        ensures
            r <= 0x400,
    {
        match find_key(&self.struct_sizes, name) {
            Some(k) => if self.struct_sizes[k].1 > 0x400 {
                0x400
            } else {
                self.struct_sizes[k].1
            },
            None => 1,
        }
    }

    /// Whether a type is a user struct; its name if so.
    fn struct_name_of<'a>(&self, ty: &'a Type) -> (r: Option<&'a String>)
        ensures
            !(ty is UserType) ==> r is None,
    {
        match ty {
            Type::UserType(n) => if find_key(&self.structs, n).is_some() {
                Some(n)
            } else {
                None
            },
            _ => None,
        }
    }

    fn layout_globals(&mut self, program: &Program)
        requires
            old(self).wf(),
            old(self).data@.len() == 0,
            old(self).globals@.len() == 0,
        ensures
            final(self).wf(),
            final(self).bytes@ == old(self).bytes@,
            final(self).loop_breaks@ == old(self).loop_breaks@,
            final(self).forward_refs@ == old(self).forward_refs@,
            final(self).fn_offsets@ == old(self).fn_offsets@,
            final(self).enums@ == old(self).enums@,
            final(self).current_fn == old(self).current_fn,
            final(self).data@ == data_section(program.top_levels@),
            forall|k: Seq<char>|
                (#[trigger] lookup(final(self).globals@, k) is Some) == (global_offset(
                    program.top_levels@,
                    k,
                ) is Some),
            forall|k: Seq<char>|
                #[trigger] lookup(final(self).globals@, k) matches Some(g) ==> global_offset(
                    program.top_levels@,
                    k,
                ) == Some(g.0 as int),
    {
        let mut i: usize = 0;
        proof {
            assert forall|k: Seq<char>| !(#[trigger] lookup(self.globals@, k) is Some) by {
                assert(!has_key(self.globals@, k));
            }
        }
        while i < program.top_levels.len()
            invariant
                i <= program.top_levels@.len(),
                self.wf(),
                self.bytes@ == old(self).bytes@,
                self.loop_breaks@ == old(self).loop_breaks@,
                self.forward_refs@ == old(self).forward_refs@,
                self.fn_offsets@ == old(self).fn_offsets@,
                self.enums@ == old(self).enums@,
                self.current_fn == old(self).current_fn,
                self.data@ == data_section(program.top_levels@.take(i as int)),
                forall|k: Seq<char>|
                    (#[trigger] lookup(self.globals@, k) is Some) == (global_offset(
                        program.top_levels@.take(i as int),
                        k,
                    ) is Some),
                forall|k: Seq<char>|
                    #[trigger] lookup(self.globals@, k) matches Some(g) ==> global_offset(
                        program.top_levels@.take(i as int),
                        k,
                    ) == Some(g.0 as int),
            decreases program.top_levels.len() - i,
        {
            let ghost before = self.data@;
            let ghost g0 = self.globals@;
            let ghost tops = program.top_levels@.take(i + 1);
            proof {
                assert(tops.drop_last() =~= program.top_levels@.take(i as int));
                assert(tops.last() == program.top_levels@[i as int]);
            }
            if let TopLevel::LetDef { name, ty, value, .. } = &program.top_levels[i] {
                let offset = self.data.len();
                self.push_init_bytes(value);
                let entry = (offset, crate::parser::ast::clone_type(ty));
                let key = name.clone();
                let ghost ge = entry;
                let ghost gk = key;
                let ghost g1 = self.globals@;
                insert_key(&mut self.globals, key, entry);
                proof {
                    assert forall|k: Seq<char>| #[trigger] lookup(self.globals@, k) == if k == name@ {
                        Some(ge)
                    } else {
                        lookup(g0, k)
                    } by {
                        lemma_lookup_after_insert(g1, self.globals@, gk, ge, k);
                    }
                    assert(before.len() == data_section(program.top_levels@.take(i as int)).len());
                }
                if let Type::Sprite(n) = ty {
                    insert_key(&mut self.sprite_sizes, name.clone(), *n);
                }
            }
            i = i + 1;
        }
        proof {
            assert(program.top_levels@.take(i as int) =~= program.top_levels@);
        }
    }

    fn push_init_bytes(&mut self, value: &Expr)
        requires
            old(self).wf(),
        ensures
            final(self).wf(),
            final(self).bytes@ == old(self).bytes@,
            final(self).loop_breaks@ == old(self).loop_breaks@,
            final(self).data@ == old(self).data@ + init_bytes(*value),
            final(self).forward_refs@ == old(self).forward_refs@,
            final(self).globals@ == old(self).globals@,
            final(self).fn_offsets@ == old(self).fn_offsets@,
            final(self).enums@ == old(self).enums@,
            final(self).current_fn == old(self).current_fn,
    {
        match &value.kind {
            ExprKind::ArrayLiteral(elems) => {
                let ghost d0 = self.data@;
                let mut k: usize = 0;
                while k < elems.len()
                    invariant
                        k <= elems@.len(),
                        self.wf(),
                        self.bytes@ == old(self).bytes@,
                        self.loop_breaks@ == old(self).loop_breaks@,
                        self.forward_refs@ == old(self).forward_refs@,
                        self.globals@ == old(self).globals@,
                        self.fn_offsets@ == old(self).fn_offsets@,
                        self.enums@ == old(self).enums@,
                        self.current_fn == old(self).current_fn,
                        d0 == old(self).data@,
                        self.data@ == d0 + literal_bytes(elems@.take(k as int)),
                    decreases elems.len() - k,
                {
                    if let ExprKind::IntLiteral(v) = &elems[k].kind {
                        self.data.push(*v as u8);
                    }
                    proof {
                        let es = elems@.take(k + 1);
                        assert(es.drop_last() =~= elems@.take(k as int));
                        assert(es.last() == elems@[k as int]);
                    }
                    k = k + 1;
                }
                proof {
                    assert(elems@.take(k as int) =~= elems@);
                }
            },
            ExprKind::IntLiteral(v) => {
                self.data.push(*v as u8);
            },
            _ => {
                self.data.push(0u8);
            },
        }
    }

    fn register_functions(&mut self, program: &Program)
        requires
            old(self).wf(),
        ensures
            final(self).wf(),
            final(self).bytes@ == old(self).bytes@,
            final(self).data@ == old(self).data@,
            final(self).loop_breaks@ == old(self).loop_breaks@,
            final(self).forward_refs@ == old(self).forward_refs@,
            final(self).globals@ == old(self).globals@,
            final(self).fn_offsets@ == old(self).fn_offsets@,
            final(self).enums@ == old(self).enums@,
            final(self).current_fn == old(self).current_fn,
    {
        let mut i: usize = 0;
        while i < program.top_levels.len()
            invariant
                self.wf(),
                self.bytes@ == old(self).bytes@,
                self.data@ == old(self).data@,
                self.loop_breaks@ == old(self).loop_breaks@,
                self.forward_refs@ == old(self).forward_refs@,
                self.globals@ == old(self).globals@,
                self.fn_offsets@ == old(self).fn_offsets@,
                self.enums@ == old(self).enums@,
                self.current_fn == old(self).current_fn,
            decreases program.top_levels.len() - i,
        {
            if let TopLevel::FnDef { name, params, return_type, body, .. } = &program.top_levels[i] {
                let mut param_areas: Vec<Option<usize>> = Vec::new();
                let mut k: usize = 0;
                while k < params.len()
                    invariant
                        self.wf(),
                        self.bytes@ == old(self).bytes@,
                        self.data@ == old(self).data@,
                        self.loop_breaks@ == old(self).loop_breaks@,
                        self.forward_refs@ == old(self).forward_refs@,
                        self.globals@ == old(self).globals@,
                        self.fn_offsets@ == old(self).fn_offsets@,
                        self.enums@ == old(self).enums@,
                        self.current_fn == old(self).current_fn,
                    decreases params.len() - k,
                {
                    let area = match self.struct_name_of(&params[k].ty) {
                        Some(sn) => {
                            let size = self.struct_size(sn);
                            Some(self.alloc_scratch(size))
                        },
                        None => None,
                    };
                    param_areas.push(area);
                    k = k + 1;
                }
                let ret_area = match self.struct_name_of(return_type) {
                    Some(sn) => {
                        let sn = sn.clone();
                        let size = self.struct_size(&sn);
                        Some((self.alloc_scratch(size), sn))
                    },
                    None => None,
                };
                let is_leaf = !calls_user_fn(body);
                insert_key(&mut self.fns, name.clone(), FnInfo { param_areas, ret_area, is_leaf });
            }
            i = i + 1;
        }
    }

    /// Hands out `n` bytes of scratch memory; returns their offset.
    fn alloc_scratch(&mut self, n: usize) -> (r: usize)
        ensures
            final(self).enums@ == old(self).enums@,
            final(self).bytes@ == old(self).bytes@,
            final(self).globals@ == old(self).globals@,
            final(self).fn_offsets@ == old(self).fn_offsets@,
            final(self).data@ == old(self).data@,
            final(self).loop_breaks@ == old(self).loop_breaks@,
            final(self).forward_refs@ == old(self).forward_refs@,
            final(self).next_free_reg == old(self).next_free_reg,
            final(self).floor == old(self).floor,
            final(self).high_water == old(self).high_water,
            final(self).locals == old(self).locals,
            final(self).current_fn == old(self).current_fn,
    {
        let off = self.scratch_len;
        self.scratch_len = self.scratch_len.saturating_add(n);
        off
    }

    // ---- emission primitives ----

    /// The code offset of the next instruction.
    fn here(&self) -> (r: usize)
        ensures
            r == self.bytes@.len(),
    {
        self.bytes.len()
    }

    /// The address of a code offset.
    fn code_addr(&self, offset: usize) -> (r: Addr)
        ensures
            r.value() == addr_of_spec(0x200usize.saturating_add(offset)),
    {
        addr_of(0x200usize.saturating_add(offset))
    }

    fn emit_op(&mut self, op: Opcode)
        requires
            old(self).wf(),
        ensures
            Self::step(*old(self), *final(self)),
            final(self).bytes@.len() == old(self).bytes@.len() + 2,
            final(self).bytes@.subrange(0, old(self).bytes@.len() as int) == old(self).bytes@,
            word_at(final(self).bytes@, old(self).bytes@.len() as int) == op.word(),
            final(self).forward_refs@ == old(self).forward_refs@,
            final(self).current_fn == old(self).current_fn,
            final(self).locals@ == old(self).locals@,
            final(self).next_free_reg == old(self).next_free_reg,
            final(self).floor == old(self).floor,
            final(self).loop_breaks@ == old(self).loop_breaks@,
    {
        let enc = op.encode();
        let ghost b = self.bytes@;
        self.bytes.push(enc[0]);
        self.bytes.push(enc[1]);
        proof {
            assert(op.word() == enc[0] as int * 256 + enc[1] as int);
            lemma_code_words_push(b, enc[0], enc[1]);
            assert(self.bytes@ == b.push(enc[0]).push(enc[1]));
            assert(self.bytes@.subrange(0, b.len() as int) =~= b);
            Self::lemma_wf_grow(*old(self), *self);
        }
    }

    /// Emits a zero word to be patched later; returns its offset.
    fn emit_placeholder(&mut self) -> (r: usize)
        requires
            old(self).wf(),
        ensures
            Self::step(*old(self), *final(self)),
            r == old(self).bytes@.len(),
            word_at(final(self).bytes@, r as int) == 0,
            slot(final(self).bytes@.len() as int, r),
            final(self).forward_refs@ == old(self).forward_refs@,
            final(self).bytes@.len() == old(self).bytes@.len() + 2,
            final(self).bytes@.subrange(0, old(self).bytes@.len() as int) == old(self).bytes@,
            final(self).locals@ == old(self).locals@,
            final(self).current_fn == old(self).current_fn,
            final(self).next_free_reg == old(self).next_free_reg,
            final(self).floor == old(self).floor,
            final(self).loop_breaks@ == old(self).loop_breaks@,
    {
        let offset = self.bytes.len();
        let ghost b = self.bytes@;
        self.bytes.push(0x00);
        self.bytes.push(0x00);
        proof {
            lemma_code_words_push(b, 0, 0);
            assert(self.bytes@ == b.push(0).push(0));
            assert(self.bytes@.subrange(0, b.len() as int) =~= b);
            Self::lemma_wf_grow(*old(self), *self);
        }
        offset
    }

    fn patch_at(&mut self, offset: usize, op: Opcode)
        requires
            old(self).wf(),
            slot(old(self).bytes@.len() as int, offset),
        ensures
            final(self).wf(),
            final(self).data@ == old(self).data@,
            word_at(final(self).bytes@, offset as int) == op.word(),
            forall|i: int|
                0 <= i < old(self).bytes@.len() && i != offset && i != offset + 1
                    ==> final(self).bytes@[i] == old(self).bytes@[i],
            final(self).bytes@.len() == old(self).bytes@.len(),
            final(self).forward_refs@ == old(self).forward_refs@,
            final(self).globals@ == old(self).globals@,
            final(self).fn_offsets@ == old(self).fn_offsets@,
            final(self).next_free_reg == old(self).next_free_reg,
            final(self).floor == old(self).floor,
            final(self).loop_breaks@ == old(self).loop_breaks@,
            final(self).locals@ == old(self).locals@,
            final(self).current_fn == old(self).current_fn,
    {
        let enc = op.encode();
        let ghost b = self.bytes@;
        self.bytes.set(offset, enc[0]);
        self.bytes.set(offset + 1, enc[1]);
        proof {
            assert(op.word() == enc[0] as int * 256 + enc[1] as int);
            lemma_code_words_patch(b, offset, enc[0], enc[1]);
            assert(self.bytes@ == b.update(offset as int, enc[0]).update(offset + 1, enc[1]));
            Self::lemma_wf_grow(*old(self), *self);
        }
    }

    /// A `CALL` or `LD I` whose address is known only at the end.
    fn emit_ref(&mut self, kind: RefKind)
        requires
            old(self).wf(),
            kind is Jump ==> (old(self).current_fn matches Some(c) && kind->Jump_0 == c.1),
        ensures
            Self::step(*old(self), *final(self)),
            final(self).bytes@.len() == old(self).bytes@.len() + 2,
            final(self).bytes@.subrange(0, old(self).bytes@.len() as int) == old(self).bytes@,
            word_at(final(self).bytes@, old(self).bytes@.len() as int) == 0,
            final(self).forward_refs@ == old(self).forward_refs@.push(
                ForwardRef { offset: ByteOffset(old(self).bytes@.len() as usize), kind },
            ),
            final(self).locals@ == old(self).locals@,
            final(self).current_fn == old(self).current_fn,
            final(self).next_free_reg == old(self).next_free_reg,
            final(self).floor == old(self).floor,
            final(self).loop_breaks@ == old(self).loop_breaks@,
    {
        let ghost b0 = self.bytes@;
        let offset = self.emit_placeholder();
        let ghost fr = self.forward_refs@;
        let ghost n = self.bytes@.len();

        proof {
            Self::lemma_refs_below(*self);
        }
        let r = ForwardRef { offset: ByteOffset(offset), kind };
        self.forward_refs.push(r);
        proof {
            assert(self.forward_refs@ == fr.push(r));
            assert(self.bytes@.len() == n);
            assert forall|i: int| 0 <= i < self.forward_refs@.len() implies slot(
                self.bytes@.len() as int,
                #[trigger] self.forward_refs@[i].offset.0,
            ) by {
                if i < fr.len() {
                    assert(self.forward_refs@[i] == fr[i]);
                    assert(slot(n as int, fr[i].offset.0));
                } else {
                    assert(self.forward_refs@[i] == r);
                }
            }
        }
    }

    /// Records a `break` placeholder for the innermost loop (none outside a loop).
    fn add_break(&mut self, offset: usize)
        requires
            old(self).wf(),
            slot(old(self).bytes@.len() as int, offset),
        ensures
            final(self).wf(),
            final(self).bytes@ == old(self).bytes@,
            final(self).data@ == old(self).data@,
            final(self).globals@ == old(self).globals@,
            final(self).fn_offsets@ == old(self).fn_offsets@,
            final(self).current_fn == old(self).current_fn,
            final(self).forward_refs@ == old(self).forward_refs@,
            final(self).floor == old(self).floor,
            final(self).loop_breaks@.len() == old(self).loop_breaks@.len(),
            forall|i: int|
                0 <= i < old(self).loop_breaks@.len() - 1 ==> #[trigger] final(self).loop_breaks@[i]
                    == old(self).loop_breaks@[i],
            old(self).loop_breaks@.len() > 0 ==> final(self).loop_breaks@[old(self).loop_breaks@.len()
                - 1]@ == old(self).loop_breaks@[old(self).loop_breaks@.len() - 1]@.push(offset),
    {
        let n = self.loop_breaks.len();
        if n > 0 {
            let mut inner: Vec<usize> = Vec::new();
            std::mem::swap(&mut inner, &mut self.loop_breaks[n - 1]);
            inner.push(offset);
            std::mem::swap(&mut inner, &mut self.loop_breaks[n - 1]);
            proof {
                let lb = self.loop_breaks@;
                let ob = old(self).loop_breaks@;
                assert(lb.len() == ob.len());
                assert forall|i: int| 0 <= i < ob.len() - 1 implies #[trigger] lb[i] == ob[i] by {}
                assert(lb[n - 1]@ == ob[n - 1]@.push(offset));
                assert forall|i: int, j: int|
                    0 <= i < lb.len() && 0 <= j < lb[i]@.len() implies slot(
                        self.bytes@.len() as int,
                        #[trigger] lb[i]@[j],
                    ) by {
                    if i < n - 1 {
                        assert(lb[i] == ob[i]);
                    } else if j < ob[i]@.len() {
                        assert(lb[i]@[j] == ob[i]@[j]);
                    }
                }
            }
        }
    }

    /// The word a forward reference is filled in with: `CALL` to the function's start, or
    /// `LD I` with the address of the global in the data section (which follows the code),
    /// or of the scratch offset after the data; `None` for a function or global that is not
    /// there.
    spec fn ref_word(self, r: ForwardRef) -> Option<int> {
        let data_base = 0x200usize.saturating_add(self.bytes@.len() as usize);
        let scratch_base = data_base.saturating_add(self.data@.len() as usize);
        match r.kind {
            RefKind::Call(name) => match lookup(self.fn_offsets@, name@) {
                Some(off) => Some(0x2000 + addr_of_spec(0x200usize.saturating_add(off))),
                None => None,
            },
            RefKind::Global(name) => match lookup(self.globals@, name@) {
                Some(g) => Some(0xA000 + addr_of_spec(data_base.saturating_add(g.0))),
                None => None,
            },
            RefKind::Scratch(off) => Some(0xA000 + addr_of_spec(scratch_base.saturating_add(off))),
            RefKind::Jump(off) => Some(0x1000 + addr_of_spec(0x200usize.saturating_add(off))),
        }
    }

    /// Fills in every forward reference: its slot gets the word of its kind (a later
    /// reference to the same slot wins), and no other byte changes.
    #[verifier::spinoff_prover]
    #[verifier::rlimit(60)]
    fn resolve_forward_refs(&mut self)
        requires
            old(self).wf(),
        ensures
            final(self).wf(),
            final(self).bytes@.len() == old(self).bytes@.len(),
            final(self).data@ == old(self).data@,
            final(self).forward_refs@ == old(self).forward_refs@,
            final(self).globals@ == old(self).globals@,
            final(self).fn_offsets@ == old(self).fn_offsets@,
            final(self).current_fn == old(self).current_fn,
            old(self).forward_refs@.len() == 0 ==> final(self).bytes@ == old(self).bytes@,
            forall|i: int|
                0 <= i < old(self).forward_refs@.len() && (forall|j: int|
                    i < j < old(self).forward_refs@.len() ==> old(self).forward_refs@[j].offset.0
                        != old(self).forward_refs@[i].offset.0) && old(self).ref_word(
                    #[trigger] old(self).forward_refs@[i],
                ) is Some ==> word_at(final(self).bytes@, old(self).forward_refs@[i].offset.0 as int)
                    == old(self).ref_word(old(self).forward_refs@[i])->0,
            forall|x: int|
                0 <= x < old(self).bytes@.len() && (forall|i: int|
                    0 <= i < old(self).forward_refs@.len() ==> x != (
                    #[trigger] old(self).forward_refs@[i]).offset.0 && x != old(
                        self,
                    ).forward_refs@[i].offset.0 + 1) ==> #[trigger] final(self).bytes@[x] == old(
                    self,
                ).bytes@[x],
    {
        let data_base = 0x200usize.saturating_add(self.bytes.len());
        let scratch_base = data_base.saturating_add(self.data.len());
        let ghost refs = self.forward_refs@;
        let ghost b0 = self.bytes@;
        let mut i: usize = 0;
        while i < self.forward_refs.len()
            invariant
                self.wf(),
                i <= refs.len(),
                self.bytes@.len() == old(self).bytes@.len(),
                self.data@ == old(self).data@,
                self.forward_refs@ == refs,
                refs == old(self).forward_refs@,
                b0 == old(self).bytes@,
                self.fn_offsets@ == old(self).fn_offsets@,
                self.current_fn == old(self).current_fn,
                self.globals@ == old(self).globals@,
                data_base == 0x200usize.saturating_add(b0.len() as usize),
                scratch_base == data_base.saturating_add(self.data@.len() as usize),
                old(self).forward_refs@.len() == 0 ==> self.bytes@ == old(self).bytes@,
                forall|k: int|
                    0 <= k < i && (forall|j: int| k < j < i ==> refs[j].offset.0 != refs[k].offset.0)
                        && old(self).ref_word(#[trigger] refs[k]) is Some ==> word_at(
                        self.bytes@,
                        refs[k].offset.0 as int,
                    ) == old(self).ref_word(refs[k])->0,
                forall|x: int|
                    0 <= x < b0.len() && (forall|k: int|
                        0 <= k < i ==> x != (#[trigger] refs[k]).offset.0 && x != refs[k].offset.0
                            + 1) ==> #[trigger] self.bytes@[x] == b0[x],
            decreases self.forward_refs.len() - i,
        {
            let offset = self.forward_refs[i].offset.0;
            let ghost before = self.bytes@;
            proof {
                assert(slot(self.bytes@.len() as int, refs[i as int].offset.0));
            }
            let op = match &self.forward_refs[i].kind {
                RefKind::Call(name) => match find_key(&self.fn_offsets, name) {
                    Some(k) => {
                        proof {
                            lemma_lookup_first(self.fn_offsets@, name@, k as int);
                        }
                        Some(Opcode::Call(self.code_addr(self.fn_offsets[k].1)))
                    },
                    None => None,
                },
                RefKind::Global(name) => match find_key(&self.globals, name) {
                    Some(k) => {
                        proof {
                            lemma_lookup_first(self.globals@, name@, k as int);
                        }
                        Some(Opcode::LdI(addr_of(data_base.saturating_add(self.globals[k].1.0))))
                    },
                    None => None,
                },
                RefKind::Scratch(off) => Some(Opcode::LdI(addr_of(scratch_base.saturating_add(*off)))),
                RefKind::Jump(off) => Some(Opcode::Jp(self.code_addr(*off))),
            };
            proof {
                assert(op matches Some(o) ==> old(self).ref_word(refs[i as int]) == Some(o.word()));
                assert(op is None ==> old(self).ref_word(refs[i as int]) is None);
            }
            if let Some(op) = op {
                self.patch_at(offset, op);
            }
            proof {
                let ii = i as int;
                assert forall|k: int|
                    0 <= k < ii + 1 && (forall|j: int| k < j < ii + 1 ==> refs[j].offset.0 != refs[k].offset.0)
                        && old(self).ref_word(#[trigger] refs[k]) is Some implies word_at(
                        self.bytes@,
                        refs[k].offset.0 as int,
                    ) == old(self).ref_word(refs[k])->0 by {
                    if k < ii {
                        assert(refs[ii].offset.0 != refs[k].offset.0);
                        assert(slot(before.len() as int, refs[k].offset.0));
                        let o = refs[k].offset.0 as int;
                        assert(self.bytes@[o] == before[o]);
                        assert(self.bytes@[o + 1] == before[o + 1]);
                    }
                }
                assert forall|x: int|
                    0 <= x < b0.len() && (forall|k: int|
                        0 <= k < ii + 1 ==> x != (#[trigger] refs[k]).offset.0 && x != refs[k].offset.0
                            + 1) implies #[trigger] self.bytes@[x] == b0[x] by {
                    assert(x != refs[ii].offset.0 && x != refs[ii].offset.0 + 1);
                    assert(self.bytes@[x] == before[x]);
                    assert forall|k: int| 0 <= k < ii implies x != (#[trigger] refs[k]).offset.0 && x
                        != refs[k].offset.0 + 1 by {
                        assert(x != refs[k].offset.0 && x != refs[k].offset.0 + 1);
                    }
                }
            }
            i = i + 1;
        }
    }

    // ---- registers ----

    /// Hands out the next register (VE again once every user register is taken).
    fn alloc_reg(&mut self) -> (r: u8)
        requires
            old(self).wf(),
        ensures
            final(self).wf(),
            r <= 14,
            final(self).bytes@ == old(self).bytes@,
            final(self).data@ == old(self).data@,
            final(self).loop_breaks@ == old(self).loop_breaks@,
            final(self).forward_refs@ == old(self).forward_refs@,
            final(self).floor == old(self).floor,
            old(self).next_free_reg <= final(self).next_free_reg,
            r < final(self).next_free_reg,
            old(self).next_free_reg <= 14 ==> r == old(self).next_free_reg
                && final(self).next_free_reg == old(self).next_free_reg + 1,
            final(self).current_fn == old(self).current_fn,
            final(self).locals@ == old(self).locals@,
            final(self).globals@ == old(self).globals@,
            final(self).fn_offsets@ == old(self).fn_offsets@,
            final(self).structs@ == old(self).structs@,
    {
        let r = if self.next_free_reg <= 14 {
            self.next_free_reg
        } else {
            14
        };
        if self.next_free_reg < 15 {
            self.next_free_reg = self.next_free_reg + 1;
        }
        if self.next_free_reg > self.high_water {
            self.high_water = self.next_free_reg;
        }
        r
    }

    /// The register numbered `i`, as an operand.
    fn r(&self, i: u8) -> (r: Register)
        requires
            i <= 15,
        ensures
            r.idx() == i,
    {
        reg(i)
    }

    fn v0() -> (r: Register)
        ensures
            r.idx() == 0,
    {
        reg(0)
    }

    /// Swaps a register with V0 (three XORs; the register must not be V0).
    fn emit_swap_v0(&mut self, x: Register)
        requires
            old(self).wf(),
        ensures
            Self::step(*old(self), *final(self)),
            final(self).next_free_reg == old(self).next_free_reg,
            final(self).floor == old(self).floor,
            final(self).loop_breaks@ == old(self).loop_breaks@,
    {
        let v0 = Self::v0();
        self.emit_op(Opcode::Xor(v0, x));
        self.emit_op(Opcode::Xor(x, v0));
        self.emit_op(Opcode::Xor(v0, x));
    }

    /// Loads the byte at I into `target`, keeping V0.
    fn emit_load_at_i(&mut self, target: Register)
        requires
            old(self).wf(),
        ensures
            Self::step(*old(self), *final(self)),
            load_code(old(self).bytes@, final(self).bytes@, target),
            final(self).forward_refs@ == old(self).forward_refs@,
            final(self).next_free_reg == old(self).next_free_reg,
            final(self).floor == old(self).floor,
            final(self).loop_breaks@ == old(self).loop_breaks@,
    {
        let v0 = Self::v0();
        let ghost a = self.bytes@;
        if target.index() == 0 {
            self.emit_op(Opcode::LdVxI(v0));
        } else {
            self.emit_op(Opcode::LdReg(target, v0));
            let ghost b1 = self.bytes@;
            self.emit_op(Opcode::LdVxI(v0));
            let ghost b2 = self.bytes@;
            self.emit_op(Opcode::Xor(target, v0));
            let ghost b3 = self.bytes@;
            self.emit_op(Opcode::Xor(v0, target));
            let ghost b4 = self.bytes@;
            self.emit_op(Opcode::Xor(target, v0));
            proof {
                let n = a.len() as int;
                lemma_prefix_trans(a, b1, b2);
                lemma_prefix_trans(a, b2, b3);
                lemma_prefix_trans(a, b3, b4);
                lemma_prefix_trans(a, b4, self.bytes@);
                assert(word_at(self.bytes@, n) == word_at(b1, n));
                assert(word_at(self.bytes@, n + 2) == word_at(b2, n + 2));
                assert(word_at(self.bytes@, n + 4) == word_at(b3, n + 4));
                assert(word_at(self.bytes@, n + 6) == word_at(b4, n + 6));
            }
        }
    }

    /// Stores `src` at I, keeping every register.
    fn emit_store_at_i(&mut self, src: Register)
        requires
            old(self).wf(),
        ensures
            Self::step(*old(self), *final(self)),
            final(self).next_free_reg == old(self).next_free_reg,
            final(self).floor == old(self).floor,
            final(self).loop_breaks@ == old(self).loop_breaks@,
    {
        let v0 = Self::v0();
        if src.index() == 0 {
            self.emit_op(Opcode::LdIVx(v0));
        } else {
            self.emit_swap_v0(src);
            self.emit_op(Opcode::LdIVx(v0));
            self.emit_swap_v0(src);
        }
    }

    /// Loads the scratch byte at `offset` into `target`.
    fn emit_load_scratch(&mut self, target: Register, offset: usize)
        requires
            old(self).wf(),
        ensures
            Self::step(*old(self), *final(self)),
            final(self).next_free_reg == old(self).next_free_reg,
            final(self).floor == old(self).floor,
            final(self).loop_breaks@ == old(self).loop_breaks@,
    {
        self.emit_ref(RefKind::Scratch(offset));
        self.emit_load_at_i(target);
    }

    /// Stores `src` into the scratch byte at `offset`.
    fn emit_store_scratch(&mut self, src: Register, offset: usize)
        requires
            old(self).wf(),
        ensures
            Self::step(*old(self), *final(self)),
            final(self).next_free_reg == old(self).next_free_reg,
            final(self).floor == old(self).floor,
            final(self).loop_breaks@ == old(self).loop_breaks@,
    {
        if src.index() == 0 {
            self.emit_ref(RefKind::Scratch(offset));
            self.emit_op(Opcode::LdIVx(Self::v0()));
        } else {
            self.emit_swap_v0(src);
            self.emit_ref(RefKind::Scratch(offset));
            self.emit_op(Opcode::LdIVx(Self::v0()));
            self.emit_swap_v0(src);
        }
    }

    /// Copies `n` scratch bytes from `src` to `dst`, keeping every register.
    fn emit_copy_block(&mut self, dst: usize, src: usize, n: usize)
        requires
            old(self).wf(),
        ensures
            Self::step(*old(self), *final(self)),
            final(self).next_free_reg == old(self).next_free_reg,
            final(self).floor == old(self).floor,
            final(self).loop_breaks@ == old(self).loop_breaks@,
    {
        if dst == src || n == 0 {
            return;
        }
        let v0 = Self::v0();
        // keep V0 in the reserved scratch byte 0
        self.emit_ref(RefKind::Scratch(0));
        self.emit_op(Opcode::LdIVx(v0));
        let mut k: usize = 0;
        while k < n
            invariant
                Self::step(*old(self), *self),
                self.next_free_reg == old(self).next_free_reg,
                self.floor == old(self).floor,
                self.loop_breaks@ == old(self).loop_breaks@,
            decreases n - k,
        {
            self.emit_ref(RefKind::Scratch(src.saturating_add(k)));
            self.emit_op(Opcode::LdVxI(v0));
            self.emit_ref(RefKind::Scratch(dst.saturating_add(k)));
            self.emit_op(Opcode::LdIVx(v0));
            k = k + 1;
        }
        self.emit_ref(RefKind::Scratch(0));
        self.emit_op(Opcode::LdVxI(v0));
    }

    /// Reads a scalar global into `target`.
    fn emit_global_read(&mut self, target: Register, name: &String)
        requires
            old(self).wf(),
        ensures
            Self::step(*old(self), *final(self)),
            Self::global_read(*old(self), *final(self), name@, target),
            final(self).next_free_reg == old(self).next_free_reg,
            final(self).floor == old(self).floor,
            final(self).loop_breaks@ == old(self).loop_breaks@,
    {
        let g = name.clone();
        let ghost gv = g@;
        let ghost s0 = *self;
        self.emit_ref(RefKind::Global(g));
        let ghost s1 = *self;
        self.emit_load_at_i(target);
        proof {
            lemma_prefix_trans(s0.bytes@, s1.bytes@, self.bytes@);
            let n = s0.bytes@.len() as int;
            assert(self.bytes@[n] == s1.bytes@[n] && self.bytes@[n + 1] == s1.bytes@[n + 1]);
            assert(self.bytes@.subrange(0, n + 2) =~= s1.bytes@);
            assert(self.forward_refs@.last() == s1.forward_refs@.last());
        }
    }

    /// Writes `src` into a scalar global.
    fn emit_global_write(&mut self, src: Register, name: &String)
        requires
            old(self).wf(),
        ensures
            Self::step(*old(self), *final(self)),
            final(self).next_free_reg == old(self).next_free_reg,
            final(self).floor == old(self).floor,
            final(self).loop_breaks@ == old(self).loop_breaks@,
    {
        self.emit_ref(RefKind::Global(name.clone()));
        self.emit_store_at_i(src);
    }

    /// `LD dst, src` unless they are the same register.
    fn emit_move(&mut self, dst: Register, src: Register)
        requires
            old(self).wf(),
        ensures
            Self::step(*old(self), *final(self)),
            dst.idx() != src.idx() ==> Self::one_word(*old(self), *final(self), Opcode::LdReg(dst, src)),
            dst.idx() == src.idx() ==> *final(self) == *old(self),
            final(self).next_free_reg == old(self).next_free_reg,
            final(self).floor == old(self).floor,
            final(self).loop_breaks@ == old(self).loop_breaks@,
    {
        if dst.index() != src.index() {
            self.emit_op(Opcode::LdReg(dst, src));
        }
    }

    /// `JP` to a code offset.
    fn emit_jp_to(&mut self, target: usize)
        requires
            old(self).wf(),
        ensures
            Self::step(*old(self), *final(self)),
            final(self).bytes@.len() == old(self).bytes@.len() + 2,
            final(self).bytes@.subrange(0, old(self).bytes@.len() as int) == old(self).bytes@,
            word_at(final(self).bytes@, old(self).bytes@.len() as int) == 0x1000 + addr_of_spec(
                0x200usize.saturating_add(target),
            ),
            final(self).forward_refs@ == old(self).forward_refs@,
            final(self).current_fn == old(self).current_fn,
            final(self).locals@ == old(self).locals@,
            final(self).next_free_reg == old(self).next_free_reg,
            final(self).floor == old(self).floor,
            final(self).loop_breaks@ == old(self).loop_breaks@,
    {
        let a = self.code_addr(target);
        self.emit_op(Opcode::Jp(a));
    }

    /// A jump over the next instruction: emitted at `here`, lands 4 bytes later.
    fn emit_skip_next(&mut self)
        requires
            old(self).wf(),
        ensures
            Self::step(*old(self), *final(self)),
            final(self).next_free_reg == old(self).next_free_reg,
            final(self).floor == old(self).floor,
            final(self).loop_breaks@ == old(self).loop_breaks@,
            final(self).locals@ == old(self).locals@,
            final(self).bytes@.len() == old(self).bytes@.len() + 2,
            final(self).bytes@.subrange(0, old(self).bytes@.len() as int) == old(self).bytes@,
            word_at(final(self).bytes@, old(self).bytes@.len() as int) == 0x1000 + addr_of_spec(
                0x200usize.saturating_add((old(self).bytes@.len() as usize).saturating_add(4)),
            ),
            final(self).forward_refs@ == old(self).forward_refs@,
            final(self).current_fn == old(self).current_fn,
    {
        let h = self.here();
        self.emit_jp_to(h.saturating_add(4));
    }

    // ---- names ----

    /// The innermost binding of a local.
    fn lookup_local(&self, name: &String) -> (r: Option<usize>)
        ensures
            r matches Some(i) ==> i < self.locals@.len() && self.locals@[i as int].0@ == name@
                && forall|j: int| i < j < self.locals@.len() ==> self.locals@[j].0@ != name@,
            r is None ==> forall|j: int| 0 <= j < self.locals@.len() ==> self.locals@[j].0@ != name@,
    {
        let mut i = self.locals.len();
        while i > 0
            invariant
                i <= self.locals@.len(),
                forall|j: int| i <= j < self.locals@.len() ==> self.locals@[j].0@ != name@,
            decreases i,
        {
            i = i - 1;
            if same_text(&self.locals[i].0, name) {
                return Some(i);
            }
        }
        None
    }

    /// `is_key_pressed(k)`: run on a keypad (`held` tells which keys are held down), the
    /// code that follows the argument leaves 1 in the result register when the key numbered
    /// by the argument's register is held down and 0 when it is not, and goes on at the word
    /// after it. The argument's register is read after the result register is set, so the
    /// statement is for an argument held elsewhere.
    proof fn law_is_key_pressed(
        mid: Self,
        fin: Self,
        args: Seq<Expr>,
        regs: Seq<Register>,
        r: Loc,
        v: Seq<u8>,
        held: spec_fn(u8) -> bool,
    )
        requires
            Self::builtin_tail(mid, fin, BuiltinFunction::IsKeyPressed, args, regs, r),
            regs.len() >= 1,
            v.len() == 16,
        ensures
            r matches Loc::Reg { reg, .. } && (reg.idx() <= 15 && regs[0].idx() <= 15 && reg.idx()
                != regs[0].idx() ==> {
                let a = mid.bytes@.len() as int;
                let down = held(v[regs[0].idx() as int]);
                steps_keys(fin.bytes@, a, v, held, if down { 2 } else { 3 }) == Some(
                    (a + 6, v.update(reg.idx() as int, if down { 1u8 } else { 0u8 })),
                )
            }),
    {
        let reg = r->Reg_reg;
        let k = regs[0];
        let a = mid.bytes@.len() as int;
        let b = fin.bytes@;
        if reg.idx() <= 15 && k.idx() <= 15 && reg.idx() != k.idx() {
            let ops = seq![Opcode::LdImm(reg, 1), Opcode::Skp(k), Opcode::LdImm(reg, 0)];
            assert(word_at(b, a) == ops[0].word());
            assert(word_at(b, a + 2) == ops[1].word());
            assert(word_at(b, a + 4) == ops[2].word());
            assert(b.len() == a + 6);
            // LD reg, 1
            lemma_exec_op(v, Opcode::LdImm(reg, 1));
            let v1 = v.update(reg.idx() as int, 1u8);
            assert(!is_key_test(ops[0].word()));
            assert(step_keys(b, a, v, held) == Some((a + 2, v1)));
            // SKP k
            let ki = k.idx() as int;
            let w = ops[1].word();
            assert(w == 0xE09E + ki * 0x100);
            assert(0 <= w < 0x10000 && group(w) == 0xE && nib_x(w) == ki && w % 0x100 == 0x9E)
                by (nonlinear_arith)
                requires
                    w == 0xE09E + ki * 0x100,
                    0 <= ki <= 15,
            ;
            assert(is_key_test(w));
            assert(v1[ki] == v[ki]);
            let down = held(v[ki]);
            if down {
                assert(step_keys(b, a + 2, v1, held) == Some((a + 6, v1)));
                assert(steps_keys(b, a + 6, v1, held, 0) == Some((a + 6, v1)));
                assert(steps_keys(b, a + 2, v1, held, 1) == Some((a + 6, v1)));
                assert(steps_keys(b, a, v, held, 2) == Some((a + 6, v1)));
            } else {
                assert(step_keys(b, a + 2, v1, held) == Some((a + 4, v1)));
                lemma_exec_op(v1, Opcode::LdImm(reg, 0));
                let v2 = v1.update(reg.idx() as int, 0u8);
                assert(!is_key_test(ops[2].word()));
                assert(step_keys(b, a + 4, v1, held) == Some((a + 6, v2)));
                assert(v2 =~= v.update(reg.idx() as int, 0u8));
                assert(steps_keys(b, a + 6, v2, held, 0) == Some((a + 6, v2)));
                assert(steps_keys(b, a + 4, v1, held, 1) == Some((a + 6, v2)));
                assert(steps_keys(b, a + 2, v1, held, 2) == Some((a + 6, v2)));
                assert(steps_keys(b, a, v, held, 3) == Some((a + 6, v2)));
            }
        }
    }

    /// The declared variants of the enum `e`, found by its name among the enums the
    /// generator knows.
    pub closed spec fn enum_variants(self, e: Seq<char>) -> Option<Seq<String>> {
        match lookup(self.enums@, e) {
            Some(vs) => Some(vs@),
            None => None,
        }
    }

    /// The value of the variant `v` of the enum `e` known to `s` (0 for an unknown enum).
    pub closed spec fn variant_of(s: Self, e: Seq<char>, v: Seq<char>) -> u8 {
        match lookup(s.enums@, e) {
            Some(vs) => variant_index(vs@, v),
            None => 0,
        }
    }

    /// The code of the enum variant `e::v` loads the variant's position in the declaration
    /// of the enum named `e` (the first 256 variants, with distinct names): variants of
    /// different enums are numbered each in their own enum.
    pub proof fn law_variant_code(s: Self, e: Seq<char>, i: int)
        requires
            s.enum_variants(e) matches Some(vs) && 0 <= i < vs.len() && i < 256 && forall|a: int, b: int|
                0 <= a < b < vs.len() ==> vs[a]@ != vs[b]@,
        ensures
            Self::variant_of(s, e, s.enum_variants(e)->0[i]@) == i,
    {
        law_variant_values(s.enum_variants(e)->0, i, i);
    }

    /// The generator knows exactly the enums that the items `tops` declare, each with the
    /// variants of its last declaration.
    #[verifier::opaque]
    pub closed spec fn declares_enums(self, tops: Seq<TopLevel>) -> bool {
        forall|n: Seq<char>|
            (#[trigger] lookup(self.enums@, n) is Some) == (enum_decl(tops, n) is Some) && (lookup(
                self.enums@,
                n,
            ) matches Some(vs) ==> names_of(vs@) == enum_decl(tops, n)->0)
    }

    /// For an enum `e` that the program declares, `e::v` loads the position of `v` in the
    /// declaration (the first 256 variants, with distinct names): each enum numbers its own
    /// variants from 0, whatever other enums declare.
    pub proof fn law_declared_variant_code(s: Self, tops: Seq<TopLevel>, e: Seq<char>, i: int)
        requires
            s.declares_enums(tops),
            enum_decl(tops, e) matches Some(vs) && 0 <= i < vs.len() && i < 256 && forall|a: int, b: int|
                0 <= a < b < vs.len() ==> vs[a] != vs[b],
        ensures
            Self::variant_of(s, e, enum_decl(tops, e)->0[i]) == i,
    {
        reveal(CodeGen::declares_enums);
        let decl = enum_decl(tops, e)->0;
        assert(lookup(s.enums@, e) is Some);
        let vs = lookup(s.enums@, e)->0@;
        assert(names_of(vs) == decl);
        assert forall|a: int, b: int| 0 <= a < b < vs.len() implies vs[a]@ != vs[b]@ by {
            assert(names_of(vs)[a] == vs[a]@ && names_of(vs)[b] == vs[b]@);
        }
        assert(names_of(vs)[i] == vs[i]@);
        law_variant_values(vs, i, i);
    }

    /// The value of an enum variant: its index.
    fn variant_value(&self, enum_name: &String, variant: &String) -> (r: u8)
        ensures
            r == Self::variant_of(*self, enum_name@, variant@),
    {
        match find_key(&self.enums, enum_name) {
            Some(e) => {
                proof {
                    lemma_lookup_first(self.enums@, enum_name@, e as int);
                }
                let ghost vs = self.enums@[e as int].1@;
                let mut k: usize = 0;
                while k < self.enums[e].1.len()
                    invariant
                        e < self.enums@.len(),
                        vs == self.enums@[e as int].1@,
                        lookup(self.enums@, enum_name@) == Some(self.enums@[e as int].1),
                        forall|j: int| 0 <= j < k ==> vs[j]@ != variant@,
                    decreases self.enums@[e as int].1@.len() - k,
                {
                    if same_text(&self.enums[e].1[k], variant) {
                        proof {
                            let kk = k as int;
                            assert(0 <= kk < vs.len() && vs[kk]@ == variant@ && (forall|j: int|
                                0 <= j < kk ==> vs[j]@ != variant@));
                            let c = choose|c: int|
                                0 <= c < vs.len() && vs[c]@ == variant@ && (forall|j: int|
                                    0 <= j < c ==> vs[j]@ != variant@);
                            if c < kk {
                                assert(vs[c]@ != variant@);
                            } else if kk < c {
                                assert(vs[kk]@ != variant@);
                            }
                            assert(c == kk);
                            assert(lookup(self.enums@, enum_name@) == Some(self.enums@[e as int].1));
                            assert(variant_index(vs, variant@) == if kk < 256 {
                                kk as u8
                            } else {
                                0u8
                            });
                        }
                        return if k < 256 {
                            k as u8
                        } else {
                            0
                        };
                    }
                    k = k + 1;
                }
                proof {
                    assert(!exists|c: int|
                        0 <= c < vs.len() && vs[c]@ == variant@ && (forall|j: int|
                            0 <= j < c ==> vs[j]@ != variant@)) by {
                        assert forall|c: int| 0 <= c < vs.len() implies vs[c]@ != variant@ by {}
                    }
                }
                0
            },
            None => {
                proof {
                    assert(lookup(self.enums@, enum_name@) is None);
                }
                0
            },
        }
    }

    /// The offset and type of a field within a struct.
    fn field_layout(&self, sname: &String, field: &String) -> (r: Option<(usize, Type)>) {
        let si = find_key(&self.structs, sname)?;
        let mut offset: usize = 0;
        let mut k: usize = 0;
        while k < self.structs[si].1.len()
            invariant
                si < self.structs@.len(),
            decreases self.structs@[si as int].1@.len() - k,
        {
            let f = &self.structs[si].1[k];
            if same_text(&f.name, field) {
                return Some((offset, crate::parser::ast::clone_type(&f.ty)));
            }
            let size = match self.struct_name_of(&f.ty) {
                Some(n) => self.struct_size(n),
                None => 1,
            };
            offset = offset.saturating_add(size);
            k = k + 1;
        }
        None
    }

    // ---- functions ----

    fn codegen_function(&mut self, name: &String, params: &Vec<Param>, body: &Expr)
        requires
            old(self).wf(),
            old(self).loop_breaks@.len() == 0,
            old(self).current_fn matches Some(c) && c.0@ == name@ && c.1 == old(self).bytes@.len() && c.2
                == (name@ == seq!['m', 'a', 'i', 'n']),
        ensures
            Self::grows(*old(self), *final(self)),
            final(self).loop_breaks@.len() == 0,
            final(self).bytes@.len() > old(self).bytes@.len(),
            name@ == seq!['m', 'a', 'i', 'n'] ==> word_at(final(self).bytes@, final(self).bytes@.len() - 2)
                == 0x1000 + addr_of_spec(
                0x200usize.saturating_add((final(self).bytes@.len() - 2) as usize),
            ),
            name@ != seq!['m', 'a', 'i', 'n'] ==> word_at(final(self).bytes@, final(self).bytes@.len() - 2)
                == Opcode::Ret.word(),
            name@ == seq!['m', 'a', 'i', 'n'] && params@.len() == 0 && is_reg_expr(*body, seq![])
                && fits(*body, 0) ==> Self::main_code(
                *old(self),
                *final(self),
                reg_value(*body, seq![]),
            ),
            forall|k: int|
                0 <= k < final(self).forward_refs@.len() ==> (#[trigger] final(self).forward_refs@[k]).offset.0
                    + 2 <= final(self).bytes@.len() - 2,
            register_fn(params@, *body) ==> final(self).forward_refs@ == old(self).forward_refs@,
            register_fn(params@, *body) ==> forall|v: Seq<u8>|
                v.len() == 16 && 0x200 + final(self).bytes@.len() - 2 < 0x1000 ==> (#[trigger] run_fwd(
                    v,
                    final(self).bytes@,
                    old(self).bytes@.len() as int,
                    final(self).bytes@.len() - 2,
                ) matches Some(u) && u[0] == reg_value(*body, param_env(params@, v))),
    {
        let start = self.here();
        let is_main = text_is(name, &['m', 'a', 'i', 'n']);
        let ghost cf = self.current_fn;
        self.locals = Vec::new();
        self.next_free_reg = 0;
        self.floor = 0;
        self.high_water = 0;
        let areas = match find_key(&self.fns, name) {
            Some(k) => clone_areas(&self.fns[k].1.param_areas),
            None => Vec::new(),
        };
        let mut k: usize = 0;
        while k < params.len()
            invariant
                Self::grows(*old(self), *self),
                self.bytes@.len() == start,
                self.loop_breaks@.len() == 0,
                self.bytes@ == old(self).bytes@,
                self.forward_refs@ == old(self).forward_refs@,
                self.current_fn == cf,
                params@.len() == 0 ==> self.next_free_reg == 0,
                params@.len() == 0 ==> self.locals@.len() == 0,
                k <= params@.len(),
                register_params(params@) ==> self.locals@.len() == k && self.next_free_reg == k
                    && forall|i: int|
                    0 <= i < k ==> (#[trigger] self.locals@[i]).0@ == params@[i].name@ && self.locals@[i].1
                        == Binding::Reg(i as u8),
            decreases params.len() - k,
        {
            let area = if k < areas.len() {
                areas[k]
            } else {
                None
            };
            match (area, self.struct_name_of(&params[k].ty)) {
                (Some(off), Some(sn)) => {
                    let sn = sn.clone();
                    self.locals.push((params[k].name.clone(), Binding::Mem { offset: off, sname: sn }));
                },
                _ => {
                    let r = self.alloc_reg();
                    let ghost before = self.locals@;
                    self.locals.push((params[k].name.clone(), Binding::Reg(r)));
                    proof {
                        if register_params(params@) {
                            assert forall|i: int| 0 <= i < k + 1 implies (#[trigger] self.locals@[i]).0@
                                == params@[i].name@ && self.locals@[i].1 == Binding::Reg(i as u8) by {
                                if i < k {
                                    assert(self.locals@[i] == before[i]);
                                }
                            }
                        }
                    }
                },
            }
            proof {
                if register_params(params@) {
                    assert(!(params@[k as int].ty is UserType));
                }
            }
            k = k + 1;
        }
        self.floor = self.next_free_reg;
        let ghost s0 = *self;
        let loc = self.codegen_tail(body);
        let ghost s1 = *self;
        self.emit_result(loc);
        let ghost s2 = *self;
        let ghost before_end = self.bytes@.len();
        self.emit_epilogue(is_main);
        assert(self.bytes@.len() == before_end + 2);
        proof {
            if name@ == seq!['m', 'a', 'i', 'n'] && params@.len() == 0 && is_reg_expr(*body, seq![])
                && fits(*body, 0) {
                assert(local_names(s0.locals@) =~= Seq::<Seq<char>>::empty());
                assert(Self::ready_for(s0, *body));
                lemma_fits_demand(*body, 0);
                let reg = loc->reg;
                let a = s0.bytes@.len() as int;
                let m = s1.bytes@.len() as int;
                let e = s2.bytes@.len() as int;
                lemma_prefix_trans(s1.bytes@, s2.bytes@, self.bytes@);
                lemma_prefix_trans(s0.bytes@, s1.bytes@, self.bytes@);
                lemma_computes_frame(
                    s1.bytes@,
                    self.bytes@,
                    a,
                    m,
                    0,
                    reg.idx() as int,
                    *body,
                    s0.locals@,
                );
                lemma_moves_frame(s2.bytes@, self.bytes@, m, e, reg.idx() as int);
                assert forall|v: Seq<u8>| v.len() == 16 && 0x200 + self.bytes@.len() <= 0x1000 implies (#[trigger] run_fwd(
                    v,
                    self.bytes@,
                    a,
                    e,
                ) matches Some(u) && u[0] == reg_value(*body, seq![])) by {
                    assert(regs_env(s0.locals@, v) =~= Seq::<(Seq<char>, u8)>::empty());
                    assert(run_fwd(v, self.bytes@, a, m) is Some);
                    lemma_fwd_seq(v, self.bytes@, a, m, e);
                    let u1 = run_fwd(v, self.bytes@, a, m)->0;
                    assert(run_fwd(u1, self.bytes@, m, e) is Some);
                }
            }
            if register_fn(params@, *body) {
                let n = params@.len();
                assert(local_names(s0.locals@) =~= param_names(params@));
                assert(locals_below(s0.locals@, s0.floor as int));
                assert(Self::ready_for(s0, *body));
                lemma_fits_demand(*body, n);
                let reg = loc->reg;
                let a = s0.bytes@.len() as int;
                let m = s1.bytes@.len() as int;
                let e = s2.bytes@.len() as int;
                lemma_prefix_trans(s1.bytes@, s2.bytes@, self.bytes@);
                lemma_prefix_trans(s0.bytes@, s1.bytes@, self.bytes@);
                lemma_computes_frame(
                    s1.bytes@,
                    self.bytes@,
                    a,
                    m,
                    n as int,
                    reg.idx() as int,
                    *body,
                    s0.locals@,
                );
                lemma_moves_frame(s2.bytes@, self.bytes@, m, e, reg.idx() as int);
                assert forall|v: Seq<u8>| v.len() == 16 && 0x200 + self.bytes@.len() - 2 < 0x1000 implies (#[trigger] run_fwd(
                    v,
                    self.bytes@,
                    a,
                    e,
                ) matches Some(u) && u[0] == reg_value(*body, param_env(params@, v))) by {
                    assert(regs_env(s0.locals@, v) =~= param_env(params@, v));
                    assert(run_fwd(v, self.bytes@, a, m) is Some);
                    lemma_fwd_seq(v, self.bytes@, a, m, e);
                    let u1 = run_fwd(v, self.bytes@, a, m)->0;
                    assert(run_fwd(u1, self.bytes@, m, e) is Some);
                }
            }
        }
        if let Some(k) = find_key(&self.usage, name) {
            self.usage.set(k, (name.clone(), self.high_water));
        } else {
            self.usage.push((name.clone(), self.high_water));
        }
    }

    /// Puts a function's result where the caller finds it: V0, or the return area.
    fn emit_result(&mut self, loc: Loc)
        requires
            old(self).wf(),
        ensures
            Self::step(*old(self), *final(self)),
            loc matches Loc::Reg { reg: src, .. } ==> src.idx() <= 14 ==> {
                &&& final(self).bytes@.len() <= old(self).bytes@.len() + 2
                &&& final(self).bytes@.subrange(0, old(self).bytes@.len() as int) == old(self).bytes@
                &&& final(self).forward_refs@ == old(self).forward_refs@
                &&& final(self).current_fn == old(self).current_fn
                &&& moves_to_v0(
                    final(self).bytes@,
                    old(self).bytes@.len() as int,
                    final(self).bytes@.len() as int,
                    src.idx() as int,
                )
            },
    {
        match loc {
            Loc::Reg { reg, .. } => {
                let ghost b0 = self.bytes@;
                let v0 = Self::v0();
                self.emit_move(v0, reg);
                proof {
                    if reg.idx() <= 14 {
                        let a = b0.len() as int;
                        assert forall|v: Seq<u8>| v.len() == 16 implies (#[trigger] run_fwd(
                            v,
                            self.bytes@,
                            a,
                            self.bytes@.len() as int,
                        ) matches Some(u) && u.len() == 16 && u[0] == v[reg.idx() as int]) by {
                            if reg.idx() != 0 {
                                lemma_op_runs(v, self.bytes@, a, Opcode::LdReg(v0, reg));
                            } else {
                                assert(self.bytes@ == b0);
                                lemma_fwd_empty(v, self.bytes@, a);
                            }
                        }
                        if reg.idx() == 0 {
                            assert(self.bytes@.subrange(0, a) =~= b0);
                        }
                    }
                }
            },
            Loc::Mem { offset, sname } => {
                if let Some(ret) = self.current_ret_area() {
                    let size = self.struct_size(&sname);
                    self.emit_copy_block(ret, offset, size);
                }
            },
            Loc::Void => {},
        }
    }

    /// The return area of the current function, when it returns a struct.
    fn current_ret_area(&self) -> Option<usize> {
        match &self.current_fn {
            Some((name, _, _)) => match find_key(&self.fns, name) {
                Some(k) => match &self.fns[k].1.ret_area {
                    Some((off, _)) => Some(*off),
                    None => None,
                },
                None => None,
            },
            None => None,
        }
    }

    /// `RET`, or, at the end of `main`, a jump to itself (the program halts there).
    fn emit_epilogue(&mut self, is_main: bool)
        requires
            old(self).wf(),
        ensures
            Self::step(*old(self), *final(self)),
            final(self).bytes@.len() == old(self).bytes@.len() + 2,
            final(self).bytes@.subrange(0, old(self).bytes@.len() as int) == old(self).bytes@,
            final(self).forward_refs@ == old(self).forward_refs@,
            is_main ==> word_at(final(self).bytes@, old(self).bytes@.len() as int) == 0x1000
                + addr_of_spec(0x200usize.saturating_add(old(self).bytes@.len() as usize)),
            !is_main ==> word_at(final(self).bytes@, old(self).bytes@.len() as int)
                == Opcode::Ret.word(),
    {
        if is_main {
            let h = self.here();
            self.emit_jp_to(h);
        } else {
            self.emit_op(Opcode::Ret);
        }
    }

    // ---- expressions ----

    /// An expression in tail position of the current function: a call of the function
    /// itself becomes a jump to its start.
    fn codegen_tail(&mut self, expr: &Expr) -> (r: Loc)
        requires
            old(self).wf(),
        ensures
            Self::step(*old(self), *final(self)),
            Self::ready_for(*old(self), *expr) ==> (r matches Loc::Reg {
                reg,
                owned,
            } && Self::emits_value(*old(self), *final(self), *expr, reg, owned)),
            expr.kind is Call ==> Self::call_code(*old(self), *final(self), *expr, r),
            old(self).current_fn matches Some((cur, start, _)) ==> (expr.kind matches ExprKind::Call {
                name,
                ..
            } && cur@ == name@ ==> final(self).bytes@.len() >= old(self).bytes@.len() + 2
                && final(self).forward_refs@.len() > 0 && final(self).forward_refs@.last().offset.0
                == final(self).bytes@.len() - 2 && final(self).forward_refs@.last().kind == RefKind::Jump(
                start,
            )),
        decreases expr, 3nat,
    {
        match &expr.kind {
            ExprKind::Call { name, args } => {
                let self_call = match &self.current_fn {
                    Some((cur, _, _)) => same_text(cur, name),
                    None => false,
                };
                if self_call {
                    self.codegen_self_tail_call(expr);
                    return Loc::Void;
                }
                self.codegen_expr(expr)
            },
            ExprKind::Block { .. } => self.codegen_block(expr, true),
            ExprKind::If { .. } => self.codegen_if(expr, true),
            ExprKind::Match { .. } => self.codegen_match(expr, true),
            _ => self.codegen_expr(expr),
        }
    }

    /// Evaluates an expression into a register; `None` for an expression without one.
    fn codegen_reg(&mut self, expr: &Expr) -> (r: Option<(Register, bool)>)
        requires
            old(self).wf(),
        ensures
            Self::step(*old(self), *final(self)),
            Self::ready_for(*old(self), *expr) ==> (r matches Some(
                (reg, owned),
            ) && Self::emits_value(*old(self), *final(self), *expr, reg, owned)),
        decreases expr, 2nat,
    {
        match self.codegen_expr(expr) {
            Loc::Reg { reg, owned } => Some((reg, owned)),
            _ => None,
        }
    }

    #[verifier::loop_isolation(false)]
    fn codegen_expr(&mut self, expr: &Expr) -> (r: Loc)
        requires
            old(self).wf(),
        ensures
            Self::step(*old(self), *final(self)),
            Self::ready_for(*old(self), *expr) ==> (r matches Loc::Reg {
                reg,
                owned,
            } && Self::emits_value(*old(self), *final(self), *expr, reg, owned)),
            expr.kind is Call ==> Self::call_code(*old(self), *final(self), *expr, r),
            expr.kind is BuiltinCall ==> exists|sts: Seq<Self>, regs: Seq<Register>|
                #[trigger] Self::builtin_code(*old(self), sts, regs, *expr, *final(self), r),
            expr.kind matches ExprKind::Ident(name) ==> (!local_names(old(self).locals@).contains(name@)
                && Self::scalar_global(*old(self), name@) ==> (r matches Loc::Reg { reg: t, owned: true }
                && Self::global_read(*old(self), *final(self), name@, t))),
            expr.kind matches ExprKind::EnumVariant { enum_name, variant } ==> (r matches Loc::Reg {
                reg,
                owned: true,
            } && appends(
                old(self).bytes@,
                final(self).bytes@,
                seq![Opcode::LdImm(reg, Self::variant_of(*old(self), enum_name@, variant@))],
            )),
        decreases expr, 1nat,
    {
        match &expr.kind {
            ExprKind::IntLiteral(v) => {
                let t = self.alloc_reg();
                let r = self.r(t);
                let ghost mid = self.bytes@;
                self.emit_op(Opcode::LdImm(r, *v as u8));
                proof {
                    if old(self).next_free_reg <= 14 {
                        lemma_literal_computes(
                            self.bytes@,
                            mid.len() as int,
                            r,
                            *v as u8,
                            old(self).next_free_reg as int,
                            *expr,
                            old(self).locals@,
                        );
                    }
                }
                Loc::Reg { reg: r, owned: true }
            },
            ExprKind::BoolLiteral(b) => {
                let t = self.alloc_reg();
                let r = self.r(t);
                let k: u8 = if *b { 1 } else { 0 };
                let ghost mid = self.bytes@;
                self.emit_op(Opcode::LdImm(r, k));
                proof {
                    if old(self).next_free_reg <= 14 {
                        lemma_literal_computes(
                            self.bytes@,
                            mid.len() as int,
                            r,
                            k,
                            old(self).next_free_reg as int,
                            *expr,
                            old(self).locals@,
                        );
                    }
                }
                Loc::Reg { reg: r, owned: true }
            },
            ExprKind::Ident(name) => {
                let r = self.codegen_ident(name);
                proof {
                    if Self::ready_for(*old(self), *expr) {
                        let x = r->reg;
                        let i = choose|i: int|
                            0 <= i < old(self).locals@.len() && old(self).locals@[i].0@ == name@
                                && old(self).locals@[i].1 == Binding::Reg(x.idx()) && forall|j: int|
                                i < j < old(self).locals@.len() ==> old(self).locals@[j].0@ != name@;
                        lemma_ident_computes(
                            self.bytes@,
                            self.bytes@.len() as int,
                            old(self).next_free_reg as int,
                            *expr,
                            old(self).locals@,
                            name@,
                            i,
                            x.idx(),
                        );
                        assert(self.bytes@.subrange(0, self.bytes@.len() as int) =~= self.bytes@);
                    }
                }
                r
            },
            ExprKind::BinaryOp { .. } => self.codegen_binary(expr),
            ExprKind::UnaryOp { op, expr: inner } => {
                let (reg, _) = match self.codegen_reg(inner) {
                    Some(x) => x,
                    None => return Loc::Void,
                };
                let ghost s1 = *self;
                let t = self.alloc_reg();
                let res = self.r(t);
                let ghost s2 = self.bytes@;
                match op {
                    UnaryOp::Neg => {
                        self.emit_op(Opcode::LdImm(res, 0));
                        let ghost s3 = self.bytes@;
                        self.emit_op(Opcode::Sub(res, reg));
                        proof {
                            lemma_prefix_trans(s2, s3, self.bytes@);
                        }
                    },
                    UnaryOp::Not => {
                        self.emit_op(Opcode::LdImm(res, 1));
                        let ghost s3 = self.bytes@;
                        self.emit_op(Opcode::Xor(res, reg));
                        proof {
                            lemma_prefix_trans(s2, s3, self.bytes@);
                        }
                    },
                }
                proof {
                    if Self::ready_for(*old(self), *expr) {
                        let a = old(self).bytes@.len() as int;
                        let m = s1.bytes@.len() as int;
                        lemma_prefix_trans(old(self).bytes@, s1.bytes@, self.bytes@);
                        lemma_computes_frame(
                            s1.bytes@,
                            self.bytes@,
                            a,
                            m,
                            old(self).next_free_reg as int,
                            reg.idx() as int,
                            **inner,
                            old(self).locals@,
                        );
                        lemma_unary_computes(
                            self.bytes@,
                            a,
                            m,
                            old(self).next_free_reg as int,
                            reg,
                            res,
                            *op,
                            **inner,
                            *expr,
                            old(self).locals@,
                        );
                    }
                }
                Loc::Reg { reg: res, owned: true }
            },
            ExprKind::BuiltinCall { .. } => self.codegen_builtin(expr),
            ExprKind::Call { .. } => self.codegen_call(expr),
            ExprKind::If { .. } => self.codegen_if(expr, false),
            ExprKind::Loop { body } => {
                let loop_start = self.here();
                self.loop_breaks.push(Vec::new());
                proof {
                    let lb = self.loop_breaks@;
                    assert forall|i: int, j: int|
                        0 <= i < lb.len() && 0 <= j < lb[i]@.len() implies slot(
                            self.bytes@.len() as int,
                            #[trigger] lb[i]@[j],
                        ) by {
                        assert(lb[i] == old(self).loop_breaks@[i]);
                    }
                }
                let ghost pushed = self.loop_breaks@;
                self.codegen_expr(body);
                self.emit_jp_to(loop_start);
                let end = self.here();
                let ghost before_pop = self.loop_breaks@;
                let breaks = self.loop_breaks.pop().unwrap();
                proof {
                    assert(self.loop_breaks@ =~= old(self).loop_breaks@) by {
                        assert forall|i: int| 0 <= i < old(self).loop_breaks@.len() implies self.loop_breaks@[i]
                            == old(self).loop_breaks@[i] by {
                            assert(before_pop[i] == pushed[i]);
                        }
                    }
                    assert(breaks == before_pop[before_pop.len() - 1]);
                    assert forall|j: int| 0 <= j < breaks@.len() implies slot(
                        self.bytes@.len() as int,
                        #[trigger] breaks@[j],
                    ) by {
                        assert(slot(self.bytes@.len() as int, before_pop[before_pop.len() - 1]@[j]));
                    }
                    assert forall|i: int, j: int|
                        0 <= i < self.loop_breaks@.len() && 0 <= j < self.loop_breaks@[i]@.len() implies slot(
                            self.bytes@.len() as int,
                            #[trigger] self.loop_breaks@[i]@[j],
                        ) by {
                        assert(self.loop_breaks@[i] == before_pop[i]);
                    }
                }
                let mut k: usize = 0;
                while k < breaks.len()
                    invariant
                        Self::step(*old(self), *self),
                        self.loop_breaks@ == old(self).loop_breaks@,
                        forall|j: int|
                            0 <= j < breaks@.len() ==> slot(self.bytes@.len() as int, #[trigger] breaks@[j]),
                    decreases breaks.len() - k,
                {
                    let a = self.code_addr(end);
                    self.patch_at(breaks[k], Opcode::Jp(a));
                    k = k + 1;
                }
                Loc::Void
            },
            ExprKind::Block { .. } => self.codegen_block(expr, false),
            ExprKind::ArrayLiteral(_) => Loc::Void,
            ExprKind::Index { array, index } => {
                if let ExprKind::Ident(name) = &array.kind {
                    if find_key(&self.globals, name).is_some() {
                        let (idx, _) = match self.codegen_reg(index) {
                            Some(x) => x,
                            None => return Loc::Void,
                        };
                        let t = self.alloc_reg();
                        let res = self.r(t);
                        self.emit_ref(RefKind::Global(name.clone()));
                        self.emit_op(Opcode::AddI(idx));
                        self.emit_load_at_i(res);
                        return Loc::Reg { reg: res, owned: true };
                    }
                }
                Loc::Void
            },
            ExprKind::Match { .. } => self.codegen_match(expr, false),
            ExprKind::EnumVariant { enum_name, variant } => {
                let val = self.variant_value(enum_name, variant);
                let t = self.alloc_reg();
                let r = self.r(t);
                let ghost a = self.bytes@;
                self.emit_op(Opcode::LdImm(r, val));
                proof {
                    assert(a.subrange(0, a.len() as int) =~= a);
                    assert(appends(a, a, seq![]));
                    lemma_appends_push(a, a, self.bytes@, seq![], Opcode::LdImm(r, val));
                    assert(seq![Opcode::LdImm(r, val)] =~= seq![].push(Opcode::LdImm(r, val)));
                }
                Loc::Reg { reg: r, owned: true }
            },
            ExprKind::StructLiteral { .. } => self.codegen_struct_literal(expr),
            ExprKind::FieldAccess { expr: inner, field } => {
                match self.codegen_expr(inner) {
                    Loc::Mem { offset, sname } => match self.field_layout(&sname, field) {
                        Some((foff, fty)) => {
                            let at = offset.saturating_add(foff);
                            match self.struct_name_of(&fty) {
                                Some(fs) => Loc::Mem { offset: at, sname: fs.clone() },
                                None => {
                                    let t = self.alloc_reg();
                                    let res = self.r(t);
                                    self.emit_load_scratch(res, at);
                                    Loc::Reg { reg: res, owned: true }
                                },
                            }
                        },
                        None => Loc::Void,
                    },
                    _ => Loc::Void,
                }
            },
        }
    }

    fn codegen_ident(&mut self, name: &String) -> (r: Loc)
        requires
            old(self).wf(),
        ensures
            Self::step(*old(self), *final(self)),
            local_names(old(self).locals@).contains(name@) && locals_below(
                old(self).locals@,
                old(self).floor as int,
            ) ==> {
                &&& *final(self) == *old(self)
                &&& r matches Loc::Reg { reg: x, owned } && !owned && x.idx() < old(self).floor
                    && exists|i: int|
                    0 <= i < old(self).locals@.len() && old(self).locals@[i].0@ == name@
                        && old(self).locals@[i].1 == Binding::Reg(x.idx()) && forall|j: int|
                        i < j < old(self).locals@.len() ==> old(self).locals@[j].0@ != name@
            },
            !local_names(old(self).locals@).contains(name@) && Self::scalar_global(*old(self), name@)
                ==> (r matches Loc::Reg { reg: t, owned: true } && (old(self).next_free_reg <= 14
                ==> t.idx() == old(self).next_free_reg) && Self::global_read(
                *old(self),
                *final(self),
                name@,
                t,
            )),
    {
        proof {
            if local_names(self.locals@).contains(name@) {
                let j = choose|j: int| 0 <= j < local_names(self.locals@).len() && local_names(self.locals@)[j] == name@;
                assert(self.locals@[j].0@ == name@);
            }
        }
        if let Some(i) = self.lookup_local(name) {
            proof {
                assert(local_names(self.locals@)[i as int] == name@);
            }
            return match &self.locals[i].1 {
                Binding::Reg(r) => Loc::Reg { reg: reg(if *r <= 15 { *r } else { 15 }), owned: false },
                Binding::Mem { offset, sname } => Loc::Mem { offset: *offset, sname: sname.clone() },
            };
        }
        proof {
            assert forall|j: int| 0 <= j < self.locals@.len() implies self.locals@[j].0@ != name@ by {
                assert(local_names(self.locals@)[j] == self.locals@[j].0@);
            }
        }
        let t = self.alloc_reg();
        let res = self.r(t);
        if let Some(g) = find_key(&self.globals, name) {
            proof {
                lemma_lookup_first(self.globals@, name@, g as int);
            }
            let scalar = match &self.globals[g].1.1 {
                Type::U8 | Type::Bool => true,
                Type::UserType(n) => match find_key(&self.structs, n) {
                    Some(k) => {
                        proof {
                            assert(self.structs@[k as int].0@ == n@);
                        }
                        false
                    },
                    None => true,
                },
                _ => false,
            };
            proof {
                assert(scalar == Self::scalar_global(*self, name@));
            }
            if scalar {
                self.emit_global_read(res, name);
            }
        }
        Loc::Reg { reg: res, owned: true }
    }

    /// A register holding the value of `(reg, owned)` that may be overwritten.
    fn own(&mut self, reg: Register, owned: bool) -> (r: Register)
        requires
            old(self).wf(),
        ensures
            Self::step(*old(self), *final(self)),
            owned && reg.idx() <= 14 ==> r == reg && *final(self) == *old(self),
            !owned && old(self).next_free_reg <= 14 ==> {
                &&& r.idx() == old(self).next_free_reg
                &&& final(self).next_free_reg == old(self).next_free_reg + 1
                &&& Self::one_word(*old(self), *final(self), Opcode::LdReg(r, reg))
            },
    {
        if owned && reg.index() <= 14 {
            reg
        } else {
            let t = self.alloc_reg();
            let res = self.r(t);
            self.emit_op(Opcode::LdReg(res, reg));
            res
        }
    }

    #[verifier::loop_isolation(false)]
    fn codegen_binary(&mut self, expr: &Expr) -> (r: Loc)
        requires
            old(self).wf(),
        ensures
            Self::step(*old(self), *final(self)),
            expr.kind is BinaryOp && Self::ready_for(*old(self), *expr) ==> (r matches Loc::Reg {
                reg,
                owned,
            } && Self::emits_value(*old(self), *final(self), *expr, reg, owned)),
        decreases expr, 0nat,
    {
        let (op, lhs, rhs) = match &expr.kind {
            ExprKind::BinaryOp { op, lhs, rhs } => (*op, lhs, rhs),
            _ => return Loc::Void,
        };
        let l = self.codegen_expr(lhs);
        let ghost s1 = *self;
        let r = self.codegen_expr(rhs);
        let ghost s2 = *self;
        if let (Loc::Reg { reg: lr, owned: lo }, Loc::Reg { reg: rr, .. }) = (&l, &r) {
            if matches!(op, BinOp::Add) || matches!(op, BinOp::Sub) || matches!(op, BinOp::And)
                || matches!(op, BinOp::Or) || matches!(op, BinOp::Eq) || matches!(op, BinOp::NotEq)
                || matches!(op, BinOp::Lt) || matches!(op, BinOp::Gt) || matches!(op, BinOp::LtEq)
                || matches!(op, BinOp::GtEq) {
                let res = self.codegen_scalar_op(op, *lr, *lo, *rr);
                proof {
                    if Self::ready_for(*old(self), *expr) {
                        self.lemma_binary_value(*old(self), s1, s2, *expr, op, **lhs, **rhs, *lr, *lo, *rr, res);
                    }
                }
                return res;
            }
        }
        match (l, r) {
            (Loc::Mem { offset: a, sname }, Loc::Mem { offset: b, .. }) => {
                if matches!(op, BinOp::Eq) || matches!(op, BinOp::NotEq) {
                    let size = self.struct_size(&sname);
                    return self.codegen_struct_eq(a, b, size, matches!(op, BinOp::NotEq));
                }
                Loc::Void
            },
            (Loc::Reg { reg: lr, owned: lo }, Loc::Reg { reg: rr, .. }) => {
                self.codegen_scalar_op(op, lr, lo, rr)
            },
            _ => Loc::Void,
        }
    }

    /// The code of a binary register expression computes its value: the two operands'
    /// code, then the operator (on a copy of the left operand when that is a variable).
    proof fn lemma_binary_value(
        self,
        s0: Self,
        s1: Self,
        s2: Self,
        e: Expr,
        op: BinOp,
        lhs: Expr,
        rhs: Expr,
        lr: Register,
        lo: bool,
        rr: Register,
        res: Loc,
    )
        requires
            s0.wf(),
            e.kind == (ExprKind::BinaryOp { op, lhs: Box::new(lhs), rhs: Box::new(rhs) }),
            op is Add || op is Sub || op is And || op is Or || is_comparison(op),
            Self::ready_for(s0, e),
            Self::ready_for(s0, lhs) ==> Self::emits_value(s0, s1, lhs, lr, lo),
            Self::ready_for(s1, rhs) ==> (exists|ro: bool| Self::emits_value(s1, s2, rhs, rr, ro)),
            Self::step(s1, s2),
            Self::step(s0, s1),
            !is_comparison(op) && lo && lr.idx() <= 14 ==> {
                &&& res == (Loc::Reg { reg: lr, owned: true })
                &&& self.next_free_reg == s2.next_free_reg
                &&& Self::one_word(s2, self, scalar_opcode(op, lr, rr))
            },
            is_comparison(op) && s2.next_free_reg <= 14 ==> {
                &&& res matches Loc::Reg { reg: c, owned: true } && c.idx() == s2.next_free_reg
                    && Self::comparison_code(s2, self, op, lr, rr, c)
                &&& self.next_free_reg == s2.next_free_reg + 1
            },
            !is_comparison(op) && !lo && s2.next_free_reg <= 14 ==> {
                &&& res matches Loc::Reg { reg: c, owned: true } && c.idx() == s2.next_free_reg
                    && Self::two_words(s2, self, Opcode::LdReg(c, lr), scalar_opcode(op, c, rr))
                &&& self.next_free_reg == s2.next_free_reg + 1
            },
        ensures
            res matches Loc::Reg { reg, owned } && Self::emits_value(s0, self, e, reg, owned),
    {
        assert(is_reg_expr(lhs, local_names(s0.locals@)));
        assert(Self::ready_for(s0, lhs));
        assert(Self::ready_for(s1, rhs));
        let ro = choose|ro: bool| Self::emits_value(s1, s2, rhs, rr, ro);
        let locals = s0.locals@;
        let keep = s0.next_free_reg as int;
        let a = s0.bytes@.len() as int;
        let m = s1.bytes@.len() as int;
        let n = s2.bytes@.len() as int;
        lemma_fits_demand(e, s0.next_free_reg as nat);
        assert(locals_below(locals, keep));
        lemma_prefix_trans(s1.bytes@, s2.bytes@, self.bytes@);
        lemma_prefix_trans(s0.bytes@, s1.bytes@, self.bytes@);
        lemma_computes_frame(s1.bytes@, self.bytes@, a, m, keep, lr.idx() as int, lhs, locals);
        lemma_computes_frame(
            s2.bytes@,
            self.bytes@,
            m,
            n,
            s1.next_free_reg as int,
            rr.idx() as int,
            rhs,
            locals,
        );
        if is_comparison(op) {
            let c = res->reg;
            lemma_comparison_computes(
                self.bytes@,
                a,
                m,
                n,
                self.bytes@.len() as int,
                keep,
                s1.next_free_reg as int,
                lr,
                rr,
                c,
                op,
                lhs,
                rhs,
                e,
                locals,
            );
        } else if lo {
            lemma_binary_in_place(
                self.bytes@,
                a,
                m,
                n,
                keep,
                s1.next_free_reg as int,
                lr,
                rr,
                op,
                lhs,
                rhs,
                e,
                locals,
            );
        } else {
            let c = res->reg;
            lemma_binary_copied(
                self.bytes@,
                a,
                m,
                n,
                keep,
                s1.next_free_reg as int,
                lr,
                rr,
                c,
                op,
                lhs,
                rhs,
                e,
                locals,
            );
        }
    }

    /// Field-by-field equality of two structs of `size` bytes.
    fn codegen_struct_eq(&mut self, a: usize, b: usize, size: usize, negate: bool) -> (r: Loc)
        requires
            old(self).wf(),
        ensures
            Self::step(*old(self), *final(self)),
    {
        let t = self.alloc_reg();
        let res = self.r(t);
        let t1 = self.alloc_reg();
        let r1 = self.r(t1);
        let t2 = self.alloc_reg();
        let r2 = self.r(t2);
        self.emit_op(Opcode::LdImm(res, 1));
        let mut k: usize = 0;
        while k < size
            invariant
                Self::step(*old(self), *self),
            decreases size - k,
        {
            self.emit_load_scratch(r1, a.saturating_add(k));
            self.emit_load_scratch(r2, b.saturating_add(k));
            self.emit_op(Opcode::SeReg(r1, r2));
            self.emit_op(Opcode::LdImm(res, 0));
            k = k + 1;
        }
        if negate {
            self.emit_op(Opcode::LdImm(r1, 1));
            self.emit_op(Opcode::Xor(res, r1));
        }
        Loc::Reg { reg: res, owned: true }
    }

    /// The code of an `if` with an `else` whose condition and branches are register
    /// expressions computes its value into the register `t` allocated for it: the
    /// condition, `SNE c, 0`, a jump to the `else` branch, the `then` branch and a copy of
    /// its value to `t`, a jump to the end, the `else` branch and a copy of its value to `t`.
    /// The states are those after the condition (`s1`), before and after each branch
    /// (`sa`/`sb`, `sc`/`sd`), after each copy (`s5`, `s9`), after the jump to the end is
    /// reserved (`s6`) and after the jump to the `else` branch is filled in (`s7`).
    #[verifier::spinoff_prover]
    #[verifier::rlimit(60)]
    proof fn lemma_if_value(
        self,
        s0: Self,
        s1: Self,
        sa: Self,
        sb: Self,
        s5: Self,
        s6: Self,
        s7: Self,
        sc: Self,
        sd: Self,
        s9: Self,
        e: Expr,
        cond: Expr,
        th: Expr,
        el: Expr,
        c: Register,
        t: Register,
        lt: Loc,
        le: Loc,
    )
        requires
            s0.wf(),
            Self::ready_for(s0, e),
            e.kind == (ExprKind::If {
                cond: Box::new(cond),
                then_block: Box::new(th),
                else_block: Some(Box::new(el)),
            }),
            Self::ready_for(s0, cond) ==> exists|co: bool| Self::emits_value(s0, s1, cond, c, co),
            s1.wf(),
            s1.next_free_reg <= 14 ==> t.idx() == s1.next_free_reg && sa.next_free_reg
                == s1.next_free_reg + 1,
            sa.floor == sa.next_free_reg,
            sa.bytes@.len() == s1.bytes@.len() + 4,
            sa.bytes@.subrange(0, s1.bytes@.len() as int) == s1.bytes@,
            word_at(sa.bytes@, s1.bytes@.len() as int) == Opcode::SneImm(c, 0).word(),
            sa.locals@ == s0.locals@,
            Self::ready_for(sa, th) ==> (lt matches Loc::Reg { reg, owned } && Self::emits_value(
                sa,
                sb,
                th,
                reg,
                owned,
            )),
            sb.wf(),
            lt matches Loc::Reg { reg, .. } ==> (reg.idx() != t.idx() ==> Self::one_word(
                sb,
                s5,
                Opcode::LdReg(t, reg),
            )) && (reg.idx() == t.idx() ==> s5 == sb),
            s6.bytes@.len() == s5.bytes@.len() + 2,
            s6.bytes@.subrange(0, s5.bytes@.len() as int) == s5.bytes@,
            s7.bytes@.len() == s6.bytes@.len(),
            forall|i: int|
                0 <= i < s6.bytes@.len() && i != s1.bytes@.len() + 2 && i != s1.bytes@.len() + 3
                    ==> s7.bytes@[i] == s6.bytes@[i],
            word_at(s7.bytes@, s1.bytes@.len() + 2int) == 0x1000 + addr_of_spec(
                0x200usize.saturating_add(s6.bytes@.len() as usize),
            ),
            sc.bytes@ == s7.bytes@,
            sc.next_free_reg == sa.floor,
            sc.floor == sa.floor,
            sc.locals@ == s0.locals@,
            Self::ready_for(sc, el) ==> (le matches Loc::Reg { reg, owned } && Self::emits_value(
                sc,
                sd,
                el,
                reg,
                owned,
            )),
            sd.wf(),
            le matches Loc::Reg { reg, .. } ==> (reg.idx() != t.idx() ==> Self::one_word(
                sd,
                s9,
                Opcode::LdReg(t, reg),
            )) && (reg.idx() == t.idx() ==> s9 == sd),
            self.bytes@.len() == s9.bytes@.len(),
            forall|i: int|
                0 <= i < s9.bytes@.len() && i != s5.bytes@.len() && i != s5.bytes@.len() + 1
                    ==> self.bytes@[i] == s9.bytes@[i],
            word_at(self.bytes@, s5.bytes@.len() as int) == 0x1000 + addr_of_spec(
                0x200usize.saturating_add(s9.bytes@.len() as usize),
            ),
            self.next_free_reg == sd.next_free_reg,
            self.floor == s0.floor,
            self.locals@ == s0.locals@,
            self.forward_refs@ == s0.forward_refs@,
            self.current_fn == s0.current_fn,
        ensures
            Self::emits_value(s0, self, e, t, true),
    {
        let locals = s0.locals@;
        let n = s0.next_free_reg as int;
        let a = s0.bytes@.len() as int;
        let m = s1.bytes@.len() as int;
        let p1 = sb.bytes@.len() as int;
        let j = s5.bytes@.len() as int;
        let p2 = sd.bytes@.len() as int;
        let end = s9.bytes@.len() as int;
        let b = self.bytes@;
        assert(Self::ready_for(s0, cond));
        let co = choose|co: bool| Self::emits_value(s0, s1, cond, c, co);
        let k = s1.next_free_reg + 1;
        assert(locals_below(locals, k as int)) by {
            assert forall|i: int| 0 <= i < locals.len() implies ((#[trigger] locals[i]).1 matches Binding::Reg(
                r,
            ) && r < k as int) by {
                assert(locals[i].1 matches Binding::Reg(r) && r < s0.floor as int);
            }
        }
        assert(locals_below(locals, n)) by {
            assert forall|i: int| 0 <= i < locals.len() implies ((#[trigger] locals[i]).1 matches Binding::Reg(
                r,
            ) && r < n) by {
                assert(locals[i].1 matches Binding::Reg(r) && r < s0.floor as int);
            }
        }
        assert(Self::ready_for(sa, th));
        let r1 = lt->reg;
        assert(Self::ready_for(sc, el));
        let r2 = le->reg;
        // Every byte the code of the `if` was built from is still in place at the end.
        lemma_prefix_elems(s0.bytes@, s1.bytes@);
        lemma_prefix_elems(s1.bytes@, sa.bytes@);
        lemma_prefix_elems(sa.bytes@, sb.bytes@);
        assert(s5.bytes@.subrange(0, p1) == sb.bytes@) by {
            if r1.idx() == t.idx() {
                assert(sb.bytes@.subrange(0, p1) =~= sb.bytes@);
            }
        }
        lemma_prefix_elems(sb.bytes@, s5.bytes@);
        lemma_prefix_elems(s5.bytes@, s6.bytes@);
        lemma_prefix_elems(sc.bytes@, sd.bytes@);
        assert(s9.bytes@.subrange(0, p2) == sd.bytes@) by {
            if r2.idx() == t.idx() {
                assert(sd.bytes@.subrange(0, p2) =~= sd.bytes@);
            }
        }
        lemma_prefix_elems(sd.bytes@, s9.bytes@);
        assert forall|i: int| 0 <= i < m implies #[trigger] b[i] == s1.bytes@[i] by {
            assert(b[i] == s9.bytes@[i]);
            assert(s9.bytes@[i] == sd.bytes@[i]);
            assert(sd.bytes@[i] == s7.bytes@[i]);
            assert(s7.bytes@[i] == s6.bytes@[i]);
            assert(s6.bytes@[i] == s5.bytes@[i]);
            assert(s5.bytes@[i] == sb.bytes@[i]);
            assert(sb.bytes@[i] == sa.bytes@[i]);
        }
        assert forall|i: int| m <= i < m + 2 implies #[trigger] b[i] == sa.bytes@[i] by {
            assert(b[i] == s9.bytes@[i]);
            assert(s9.bytes@[i] == sd.bytes@[i]);
            assert(sd.bytes@[i] == s7.bytes@[i]);
            assert(s7.bytes@[i] == s6.bytes@[i]);
            assert(s6.bytes@[i] == s5.bytes@[i]);
            assert(s5.bytes@[i] == sb.bytes@[i]);
        }
        assert forall|i: int| m + 2 <= i < m + 4 implies #[trigger] b[i] == s7.bytes@[i] by {
            assert(b[i] == s9.bytes@[i]);
            assert(s9.bytes@[i] == sd.bytes@[i]);
        }
        assert forall|i: int| m + 4 <= i < j implies #[trigger] b[i] == s5.bytes@[i] by {
            assert(b[i] == s9.bytes@[i]);
            assert(s9.bytes@[i] == sd.bytes@[i]);
            assert(sd.bytes@[i] == s7.bytes@[i]);
            assert(s7.bytes@[i] == s6.bytes@[i]);
        }
        assert forall|i: int| j + 2 <= i < end && i != j && i != j + 1 implies #[trigger] b[i]
            == s9.bytes@[i] by {}
        assert forall|i: int| m + 4 <= i < p1 implies #[trigger] s5.bytes@[i] == sb.bytes@[i] by {}
        assert forall|i: int| j + 2 <= i < p2 implies #[trigger] s9.bytes@[i] == sd.bytes@[i] by {}
        lemma_computes_frame(s1.bytes@, b, a, m, n, c.idx() as int, cond, locals);
        lemma_computes_frame(sb.bytes@, b, m + 4, p1, k as int, r1.idx() as int, th, locals);
        lemma_computes_frame(sd.bytes@, b, j + 2, p2, k as int, r2.idx() as int, el, locals);
        assert(word_at(b, m) == word_at(sa.bytes@, m));
        assert(word_at(b, m + 2) == word_at(s7.bytes@, m + 2));
        if r1.idx() != t.idx() {
            assert(word_at(b, p1) == word_at(s5.bytes@, p1));
        }
        if r2.idx() != t.idx() {
            assert(word_at(b, p2) == word_at(s9.bytes@, p2));
        }
        assert forall|env: Seq<(Seq<char>, u8)>| #[trigger] reg_value(e, env) == if reg_value(
            cond,
            env,
        ) != 0 {
            reg_value(th, env)
        } else {
            reg_value(el, env)
        } by {}
        lemma_if_computes(b, a, m, p1, j, p2, end, n, c, t, r1, r2, cond, th, el, e, locals);
        assert(b.subrange(0, a) =~= s0.bytes@) by {
            assert forall|i: int| 0 <= i < a implies b.subrange(0, a)[i] == s0.bytes@[i] by {
                assert(b[i] == s1.bytes@[i]);
            }
        }
    }

    #[verifier::spinoff_prover]
    #[verifier::rlimit(60)]
    fn codegen_scalar_op(&mut self, op: BinOp, lr: Register, lo: bool, rr: Register) -> (r: Loc)
        requires
            old(self).wf(),
        ensures
            Self::step(*old(self), *final(self)),
            (op is Add || op is Sub || op is And || op is Or) && lo && lr.idx() <= 14 ==> {
                &&& r == (Loc::Reg { reg: lr, owned: true })
                &&& final(self).next_free_reg == old(self).next_free_reg
                &&& Self::one_word(*old(self), *final(self), scalar_opcode(op, lr, rr))
            },
            (op is Add || op is Sub || op is And || op is Or) && !lo && old(self).next_free_reg
                <= 14 ==> {
                &&& r matches Loc::Reg { reg: c, owned: true } && c.idx() == old(self).next_free_reg
                    && Self::two_words(
                    *old(self),
                    *final(self),
                    Opcode::LdReg(c, lr),
                    scalar_opcode(op, c, rr),
                )
                &&& final(self).next_free_reg == old(self).next_free_reg + 1
            },
            is_comparison(op) && old(self).next_free_reg <= 14 ==> {
                &&& r matches Loc::Reg { reg: c, owned: true } && c.idx() == old(self).next_free_reg
                    && Self::comparison_code(*old(self), *final(self), op, lr, rr, c)
                &&& final(self).next_free_reg == old(self).next_free_reg + 1
            },
    {
        match op {
            BinOp::Add | BinOp::Sub | BinOp::And | BinOp::Or => {
                let dst = self.own(lr, lo);
                let ghost mid = *self;
                let instr = match op {
                    BinOp::Add => Opcode::Add(dst, rr),
                    BinOp::Sub => Opcode::Sub(dst, rr),
                    BinOp::And => Opcode::And(dst, rr),
                    _ => Opcode::Or(dst, rr),
                };
                self.emit_op(instr);
                proof {
                    if !lo && old(self).next_free_reg <= 14 {
                        lemma_prefix_trans(old(self).bytes@, mid.bytes@, self.bytes@);
                    }
                }
                Loc::Reg { reg: dst, owned: true }
            },
            BinOp::Mul => {
                let t = self.alloc_reg();
                let res = self.r(t);
                let c = self.alloc_reg();
                let cnt = self.r(c);
                self.emit_op(Opcode::LdImm(res, 0));
                self.emit_op(Opcode::LdReg(cnt, rr));
                // loop: while cnt != 0 { res += lhs; cnt -= 1 }
                let top = self.here();
                self.emit_op(Opcode::SneImm(cnt, 0));
                self.emit_jp_to(top.saturating_add(10));
                self.emit_op(Opcode::Add(res, lr));
                self.emit_op(Opcode::AddImm(cnt, 0xFF));
                self.emit_jp_to(top);
                Loc::Reg { reg: res, owned: true }
            },
            BinOp::Div | BinOp::Mod => {
                let tq = self.alloc_reg();
                let q = self.r(tq);
                let trm = self.alloc_reg();
                let rem = self.r(trm);
                let tt = self.alloc_reg();
                let t = self.r(tt);
                self.emit_op(Opcode::LdImm(q, 0));
                self.emit_op(Opcode::LdReg(rem, lr));
                // a zero divisor gives quotient 0 and remainder lhs
                let check = self.here();
                self.emit_op(Opcode::SneImm(rr, 0));
                self.emit_jp_to(check.saturating_add(18));
                // loop: while rem >= rhs { rem -= rhs; q += 1 }
                let top = self.here();
                self.emit_op(Opcode::LdReg(t, rem));
                self.emit_op(Opcode::Sub(t, rr));
                self.emit_op(Opcode::SeImm(Register::VF, 1));
                self.emit_jp_to(top.saturating_add(14));
                self.emit_op(Opcode::LdReg(rem, t));
                self.emit_op(Opcode::AddImm(q, 1));
                self.emit_jp_to(top);
                if matches!(op, BinOp::Div) {
                    Loc::Reg { reg: q, owned: true }
                } else {
                    Loc::Reg { reg: rem, owned: true }
                }
            },
            BinOp::Eq | BinOp::NotEq => {
                let t = self.alloc_reg();
                let res = self.r(t);
                let ghost s0 = self.bytes@;
                self.emit_op(Opcode::LdImm(res, 0));
                let ghost s1 = self.bytes@;
                if matches!(op, BinOp::Eq) {
                    self.emit_op(Opcode::SeReg(lr, rr));
                } else {
                    self.emit_op(Opcode::SneReg(lr, rr));
                }
                let ghost s2 = self.bytes@;
                self.emit_skip_next();
                let ghost s3 = self.bytes@;
                self.emit_op(Opcode::LdImm(res, 1));
                proof {
                    lemma_prefix_trans(s2, s3, self.bytes@);
                    lemma_prefix_trans(s1, s2, self.bytes@);
                    lemma_prefix_trans(s0, s1, self.bytes@);
                    let n = s0.len() as int;
                    assert(word_at(self.bytes@, n) == word_at(s1, n));
                    assert(word_at(self.bytes@, n + 2) == word_at(s2, n + 2));
                    assert(word_at(self.bytes@, n + 4) == word_at(s3, n + 4));
                }
                Loc::Reg { reg: res, owned: true }
            },
            BinOp::Lt | BinOp::Gt | BinOp::LtEq | BinOp::GtEq => {
                // a - b sets VF to (a >= b)
                // the result is 1 when `a >= b` fails: `l < r` for `<` and `<=`,
                // `r < l` for `>` and `>=`
                let (a, b) = match op {
                    BinOp::Lt | BinOp::LtEq => (lr, rr),
                    _ => (rr, lr),
                };
                let t = self.alloc_reg();
                let res = self.r(t);
                let ghost s0 = self.bytes@;
                self.emit_op(Opcode::LdReg(res, a));
                let ghost s1 = self.bytes@;
                self.emit_op(Opcode::Sub(res, b));
                let ghost s2 = self.bytes@;
                self.emit_op(Opcode::LdImm(res, 1));
                let ghost s3 = self.bytes@;
                self.emit_op(Opcode::SeImm(Register::VF, 0));
                let ghost s4 = self.bytes@;
                self.emit_op(Opcode::LdImm(res, 0));
                proof {
                    lemma_prefix_trans(s3, s4, self.bytes@);
                    lemma_prefix_trans(s2, s3, self.bytes@);
                    lemma_prefix_trans(s1, s2, self.bytes@);
                    lemma_prefix_trans(s0, s1, self.bytes@);
                    let n = s0.len() as int;
                    assert(word_at(self.bytes@, n) == word_at(s1, n));
                    assert(word_at(self.bytes@, n + 2) == word_at(s2, n + 2));
                    assert(word_at(self.bytes@, n + 4) == word_at(s3, n + 4));
                    assert(word_at(self.bytes@, n + 6) == word_at(s4, n + 6));
                }
                Loc::Reg { reg: res, owned: true }
            },
        }
    }

    /// The arguments of a builtin call generated one after the other, from the state
    /// `sts[k]` to `sts[k + 1]`: each one that is a register expression computes its value
    /// into `regs[k]`; a name in first place (`names`) generates nothing and stands as V0.
    spec fn args_code(sts: Seq<Self>, regs: Seq<Register>, args: Seq<Expr>, names: bool) -> bool {
        &&& sts.len() == args.len() + 1
        &&& regs.len() == args.len()
        &&& forall|k: int|
            0 <= k < args.len() ==> {
                &&& names && k == 0 ==> sts[k + 1] == sts[k] && regs[k].idx() == 0
                &&& !(names && k == 0) ==> (Self::ready_for(sts[k], #[trigger] args[k]) ==> exists|
                    o: bool,
                | #[trigger] Self::emits_value(sts[k], sts[k + 1], args[k], regs[k], o))
            }
    }

    /// The code of `random_enum` over `n` variants, from `mid` on: `RND res, m` with `m` the smallest all-ones mask covering the values, then, when
    /// the mask covers more than the values, `LD tmp, n`, `SUBN tmp, res`, `SE VF, 0` and a
    /// jump back to the `RND` (retried while `res >= n`).
    spec fn random_enum_code(mid: Self, fin: Self, n: u8, r: Loc) -> bool {
        let a = mid.bytes@.len() as int;
        r matches Loc::Reg { reg: res, owned: true } && (mid.next_free_reg <= 14 ==> res.idx()
            == mid.next_free_reg) && exists|m: u8|
            #![trigger mask_covers(m, n)]
            mask_covers(m, n) && if n > 1 && m + 1 != n {
                exists|tmp: Register| #[trigger] retry_code(mid.bytes@, fin.bytes@, res, m, n, tmp)
            } else {
                appends(mid.bytes@, fin.bytes@, seq![Opcode::Rnd(res, m)])
            }
    }

    /// What a builtin generates after its arguments (from `mid`), and where its value is.
    spec fn builtin_tail(
        mid: Self,
        fin: Self,
        builtin: BuiltinFunction,
        args: Seq<Expr>,
        regs: Seq<Register>,
        r: Loc,
    ) -> bool {
        let a = mid.bytes@;
        let b = fin.bytes@;
        let fresh = |reg: Register| mid.next_free_reg <= 14 ==> reg.idx() == mid.next_free_reg;
        match builtin {
            BuiltinFunction::Clear => appends(a, b, seq![Opcode::Cls]) && r is Void,
            BuiltinFunction::Draw => {
                &&& r == (Loc::Reg { reg: Register::VF, owned: false })
                &&& if args.len() == 3 && args[0].kind is Ident {
                    let sprite = args[0].kind->Ident_0;
                    &&& b.len() == a.len() + 4
                    &&& b.subrange(0, a.len() as int) == a
                    &&& word_at(b, a.len() as int) == 0
                    &&& fin.forward_refs@ == mid.forward_refs@.push(
                        ForwardRef { offset: ByteOffset(a.len() as usize), kind: RefKind::Global(sprite) },
                    )
                    &&& word_at(b, a.len() + 2int) == 0xD000 + regs[1].idx() * 0x100 + regs[2].idx() * 0x10
                        + sprite_rows(mid.sprite_sizes@, sprite@)
                } else {
                    b == a
                }
            },
            BuiltinFunction::WaitKey => r matches Loc::Reg { reg, owned: true } && fresh(reg)
                && appends(a, b, seq![Opcode::LdVxK(reg)]),
            BuiltinFunction::IsKeyPressed => if regs.len() >= 1 {
                r matches Loc::Reg { reg, owned: true } && fresh(reg) && appends(
                    a,
                    b,
                    seq![Opcode::LdImm(reg, 1), Opcode::Skp(regs[0]), Opcode::LdImm(reg, 0)],
                )
            } else {
                b == a && r is Void
            },
            BuiltinFunction::Delay => r matches Loc::Reg { reg, owned: true } && fresh(reg)
                && appends(a, b, seq![Opcode::LdVxDt(reg)]),
            BuiltinFunction::SetDelay => r is Void && if regs.len() >= 1 {
                appends(a, b, seq![Opcode::LdDtVx(regs[0])])
            } else {
                b == a
            },
            BuiltinFunction::SetSound => r is Void && if regs.len() >= 1 {
                appends(a, b, seq![Opcode::LdStVx(regs[0])])
            } else {
                b == a
            },
            BuiltinFunction::Random => if regs.len() >= 1 {
                r matches Loc::Reg { reg, owned: true } && fresh(reg) && appends(
                    a,
                    b,
                    seq![Opcode::Rnd(reg, 0xFF), Opcode::And(reg, regs[0])],
                )
            } else {
                b == a && r is Void
            },
            BuiltinFunction::Bcd => r is Void && if regs.len() >= 1 {
                appends(a, b, seq![Opcode::LdBVx(regs[0])])
            } else {
                b == a
            },
            BuiltinFunction::DrawDigit => r is Void && if regs.len() >= 3 {
                b.len() == a.len() + 4 && appends(a, b.subrange(0, a.len() + 2int), seq![Opcode::LdFVx(regs[0])])
                    && word_at(b, a.len() + 2int) == 0xD000 + regs[1].idx() * 0x100 + regs[2].idx() * 0x10
                    + 5
            } else {
                b == a
            },
            BuiltinFunction::RandomEnum => {
                let count = if args.len() >= 1 && args[0].kind is Ident {
                    match lookup(mid.enums@, (args[0].kind->Ident_0)@) {
                        Some(vs) => vs@.len() as int,
                        None => 0,
                    }
                } else {
                    0
                };
                Self::random_enum_code(mid, fin, clamp_u8(count), r)
            },
        }
    }

    /// The code of a builtin call: its arguments' code, then the builtin's own words.
    spec fn builtin_code(s0: Self, sts: Seq<Self>, regs: Seq<Register>, e: Expr, fin: Self, r: Loc) -> bool {
        e.kind matches ExprKind::BuiltinCall { builtin, args } && sts.len() > 0 && sts[0] == s0
            && Self::args_code(sts, regs, args@, names_first(builtin)) && Self::builtin_tail(
            sts.last(),
            fin,
            builtin,
            args@,
            regs,
            r,
        )
    }

    /// At position `i` of the forward references of `s` there is a `CALL` to `name`, in a
    /// slot of the code at or after `from`.
    spec fn call_ref_at(s: Self, i: int, name: Seq<char>, from: int) -> bool {
        &&& 0 <= i < s.forward_refs@.len()
        &&& s.forward_refs@[i].kind matches RefKind::Call(n) && n@ == name
        &&& from <= s.forward_refs@[i].offset.0
        &&& s.forward_refs@[i].offset.0 + 2 <= s.bytes@.len()
    }

    /// The code of a call of a user function with a value in a register: somewhere after the
    /// arguments' code, a `CALL` to the function (filled in at the end), right after which
    /// the value is copied from V0 to the result's register (unless that is V0).
    spec fn call_code(s0: Self, fin: Self, e: Expr, r: Loc) -> bool {
        e.kind matches ExprKind::Call { name, .. } && (r matches Loc::Reg { reg, .. } ==> exists|i: int|
            #[trigger] Self::call_ref_at(fin, i, name@, s0.bytes@.len() as int) && (reg.idx() != 0
                ==> word_at(fin.bytes@, fin.forward_refs@[i].offset.0 + 2) == 0x8000 + reg.idx()
                * 0x100))
    }

    /// The code of a read of global `name` into `t`: an `LD I` placeholder, recorded as a
    /// reference to the global (filled in with its data address), then [`load_code`].
    spec fn global_read(s0: Self, s1: Self, name: Seq<char>, t: Register) -> bool {
        let n = s0.bytes@.len() as int;
        &&& s1.bytes@.len() >= n + 2
        &&& s1.bytes@.subrange(0, n) == s0.bytes@
        &&& word_at(s1.bytes@, n) == 0
        &&& load_code(s1.bytes@.subrange(0, n + 2), s1.bytes@, t)
        &&& s1.forward_refs@.len() == s0.forward_refs@.len() + 1
        &&& s1.forward_refs@.last().offset.0 == n
        &&& s1.forward_refs@.last().kind matches RefKind::Global(g) && g@ == name
    }

    /// A scalar global: a byte, a boolean, or a value of a named type that is not a struct.
    spec fn scalar_global(s: Self, name: Seq<char>) -> bool {
        lookup(s.globals@, name) matches Some(g) && match g.1 {
            Type::U8 | Type::Bool => true,
            Type::UserType(tn) => !has_key(s.structs@, tn@),
            _ => false,
        }
    }

    /// What the code of an expression from `s0` to `s1`, with result `r`, is known to do.
    spec fn expr_code(s0: Self, s1: Self, e: Expr, r: Loc) -> bool {
        &&& Self::step(s0, s1)
        &&& Self::ready_for(s0, e) ==> (r matches Loc::Reg { reg, owned } && Self::emits_value(
            s0,
            s1,
            e,
            reg,
            owned,
        ))
        &&& e.kind is Call ==> Self::call_code(s0, s1, e, r)
        &&& e.kind is BuiltinCall ==> exists|sts: Seq<Self>, regs: Seq<Register>|
            #[trigger] Self::builtin_code(s0, sts, regs, e, s1, r)
    }

    /// The code of `let name = value;`: the value's code (from `s0` to `s1`, result `r`);
    /// a value in a register `x` is then copied to the variable's new register `t` (the
    /// next free one) unless it is there already, and the variable is bound to `t`; the
    /// next free register is then the one after `t`, and the locals end there.
    spec fn let_code(s0: Self, s1: Self, fin: Self, value: Expr, name: String, r: Loc) -> bool {
        &&& Self::expr_code(s0, s1, value, r)
        &&& r matches Loc::Reg { reg: x, .. } ==> {
            let t = fin.locals@.last().1->Reg_0;
            &&& fin.locals@.len() > 0
            &&& fin.locals@.last().0@ == name@
            &&& fin.locals@.last().1 is Reg
            &&& s0.next_free_reg <= 14 ==> t == s0.next_free_reg && fin.next_free_reg == t + 1
            &&& fin.floor == fin.next_free_reg
            &&& x.idx() != t ==> fin.bytes@.len() == s1.bytes@.len() + 2 && fin.bytes@.subrange(
                0,
                s1.bytes@.len() as int,
            ) == s1.bytes@ && word_at(fin.bytes@, s1.bytes@.len() as int) == 0x8000 + t * 0x100
                + x.idx() * 0x10
            &&& x.idx() == t ==> fin.bytes@ == s1.bytes@
        }
    }

    /// The code of `name = value;` to a variable held in a register: the value's code (from
    /// `s0` to `s1`, result `r`); a value in a register `x` is then copied to the innermost
    /// variable `name`'s register `t` unless it is there already.
    spec fn assign_code(s0: Self, s1: Self, fin: Self, value: Expr, name: String, r: Loc) -> bool {
        &&& Self::expr_code(s0, s1, value, r)
        &&& forall|i: int|
            0 <= i < s1.locals@.len() && (#[trigger] s1.locals@[i]).0@ == name@ && s1.locals@[i].1 is Reg
                && s1.locals@[i].1->Reg_0 <= 15 && (forall|j: int|
                i < j < s1.locals@.len() ==> s1.locals@[j].0@ != name@) ==> (r matches Loc::Reg {
                reg: x,
                ..
            } ==> {
                let t = s1.locals@[i].1->Reg_0;
                &&& x.idx() != t ==> fin.bytes@.len() == s1.bytes@.len() + 2 && fin.bytes@.subrange(
                    0,
                    s1.bytes@.len() as int,
                ) == s1.bytes@ && word_at(fin.bytes@, s1.bytes@.len() as int) == 0x8000 + t * 0x100
                    + x.idx() * 0x10
                &&& x.idx() == t ==> fin.bytes@ == s1.bytes@
            })
    }

    /// A builtin call. The arguments are evaluated in order (a sprite or enum name in first
    /// place is not), then each builtin emits its instructions: `CLS`; `LD I` with the
    /// sprite's address and `DRW x, y, rows` (the value is VF); `LD r, K`; `LD r, 1`,
    /// `SKP k`, `LD r, 0`; `LD r, DT`; `LD DT, x`; `LD ST, x`; `RND r, FF` and `AND r, m`;
    /// `LD B, x`; `LD F, v` and `DRW x, y, 5`; or the `random_enum` loop.
    #[verifier::loop_isolation(false)]
    fn codegen_builtin(&mut self, expr: &Expr) -> (r: Loc)
        requires
            old(self).wf(),
        ensures
            Self::step(*old(self), *final(self)),
            expr.kind is BuiltinCall ==> exists|sts: Seq<Self>, regs: Seq<Register>|
                #[trigger] Self::builtin_code(*old(self), sts, regs, *expr, *final(self), r),
        decreases expr, 0nat,
    {
        let (builtin, args) = match &expr.kind {
            ExprKind::BuiltinCall { builtin, args } => (*builtin, args),
            _ => return Loc::Void,
        };
        // draw's first argument names a sprite and random_enum's names an enum:
        // neither is evaluated
        let skip_first = matches!(builtin, BuiltinFunction::Draw) || matches!(builtin, BuiltinFunction::RandomEnum);
        let mut regs: Vec<Register> = Vec::new();
        let ghost mut sts: Seq<Self> = seq![*self];
        let mut k: usize = 0;
        while k < args.len()
            invariant
                Self::step(*old(self), *self),
                regs@.len() == k,
                k <= args@.len(),
                sts.len() == k + 1,
                sts[0] == *old(self),
                sts[k as int] == *self,
                skip_first == names_first(builtin),
                forall|j: int|
                    0 <= j < k ==> {
                        &&& skip_first && j == 0 ==> sts[j + 1] == sts[j] && regs@[j].idx() == 0
                        &&& !(skip_first && j == 0) ==> (Self::ready_for(sts[j], #[trigger] args@[j])
                            ==> exists|o: bool| #[trigger] Self::emits_value(sts[j], sts[j + 1], args@[j], regs@[j], o))
                    },
            decreases args.len() - k,
        {
            let ghost before = *self;
            let ghost regs_before = regs@;
            let ghost mut ow: bool = false;
            if skip_first && k == 0 {
                regs.push(Self::v0());
            } else {
                match self.codegen_reg(&args[k]) {
                    Some((r, o)) => {
                        proof {
                            ow = o;
                        }
                        regs.push(r)
                    },
                    None => regs.push(Self::v0()),
                }
            }
            let ghost sts0 = sts;
            let ghost regs0 = regs_before;
            proof {
                sts = sts.push(*self);
                assert forall|j: int|
                    0 <= j < k + 1 implies {
                        &&& skip_first && j == 0 ==> sts[j + 1] == sts[j] && regs@[j].idx() == 0
                        &&& !(skip_first && j == 0) ==> (Self::ready_for(sts[j], #[trigger] args@[j])
                            ==> exists|o: bool| #[trigger] Self::emits_value(sts[j], sts[j + 1], args@[j], regs@[j], o))
                    } by {
                    if j < k {
                        assert(sts[j] == sts0[j]);
                        assert(sts[j + 1] == sts0[j + 1]);
                        assert(regs@[j] == regs0[j]);
                    } else {
                        assert(sts[j] == before);
                        assert(sts[j + 1] == *self);
                        assert(regs@ == regs0.push(regs@[j]));
                        if !(skip_first && j == 0) && Self::ready_for(sts[j], args@[j]) {
                            assert(Self::emits_value(sts[j], sts[j + 1], args@[j], regs@[j], ow));
                        }
                    }
                }
            }
            k = k + 1;
        }
        let ghost mid = *self;
        let ghost a = self.bytes@;
        proof {
            lemma_appends_none(a);
        }
        let r = match builtin {
            BuiltinFunction::Clear => {
                self.emit_op(Opcode::Cls);
                proof {
                    lemma_appends_push(a, a, self.bytes@, seq![], Opcode::Cls);
                }
                Loc::Void
            },
            BuiltinFunction::Draw => {
                if args.len() == 3 {
                    if let ExprKind::Ident(sprite) = &args[0].kind {
                        let rows = match find_key(&self.sprite_sizes, sprite) {
                            Some(s) => {
                                proof {
                                    lemma_lookup_first(self.sprite_sizes@, sprite@, s as int);
                                }
                                self.sprite_sizes[s].1
                            },
                            None => 1,
                        };
                        let n: u8 = if rows >= 1 && rows <= 15 {
                            rows as u8
                        } else if rows > 15 {
                            15
                        } else {
                            1
                        };
                        assert(n == sprite_rows(mid.sprite_sizes@, sprite@));
                        self.emit_ref(RefKind::Global(sprite.clone()));
                        let ghost b1 = self.bytes@;
                        let h = SpriteHeight::new(n);
                        self.emit_op(Opcode::Drw(regs[1], regs[2], h));
                        proof {
                            lemma_prefix_trans(a, b1, self.bytes@);
                            assert(word_at(self.bytes@, a.len() as int) == word_at(b1, a.len() as int));
                        }
                    }
                }
                Loc::Reg { reg: Register::VF, owned: false }
            },
            BuiltinFunction::WaitKey => {
                let t = self.alloc_reg();
                let r = self.r(t);
                self.emit_op(Opcode::LdVxK(r));
                proof {
                    lemma_appends_push(a, a, self.bytes@, seq![], Opcode::LdVxK(r));
                }
                Loc::Reg { reg: r, owned: true }
            },
            BuiltinFunction::IsKeyPressed => {
                if regs.len() < 1 {
                    Loc::Void
                } else {
                    let t = self.alloc_reg();
                    let res = self.r(t);
                    self.emit_op(Opcode::LdImm(res, 1));
                    let ghost b1 = self.bytes@;
                    self.emit_op(Opcode::Skp(regs[0]));
                    let ghost b2 = self.bytes@;
                    self.emit_op(Opcode::LdImm(res, 0));
                    proof {
                        lemma_appends_push(a, a, b1, seq![], Opcode::LdImm(res, 1));
                        lemma_appends_push(a, b1, b2, seq![Opcode::LdImm(res, 1)], Opcode::Skp(regs@[0]));
                        lemma_appends_push(
                            a,
                            b2,
                            self.bytes@,
                            seq![Opcode::LdImm(res, 1), Opcode::Skp(regs@[0])],
                            Opcode::LdImm(res, 0),
                        );
                    }
                    Loc::Reg { reg: res, owned: true }
                }
            },
            BuiltinFunction::Delay => {
                let t = self.alloc_reg();
                let r = self.r(t);
                self.emit_op(Opcode::LdVxDt(r));
                proof {
                    lemma_appends_push(a, a, self.bytes@, seq![], Opcode::LdVxDt(r));
                }
                Loc::Reg { reg: r, owned: true }
            },
            BuiltinFunction::SetDelay => {
                if regs.len() >= 1 {
                    self.emit_op(Opcode::LdDtVx(regs[0]));
                    proof {
                        lemma_appends_push(a, a, self.bytes@, seq![], Opcode::LdDtVx(regs@[0]));
                    }
                }
                Loc::Void
            },
            BuiltinFunction::SetSound => {
                if regs.len() >= 1 {
                    self.emit_op(Opcode::LdStVx(regs[0]));
                    proof {
                        lemma_appends_push(a, a, self.bytes@, seq![], Opcode::LdStVx(regs@[0]));
                    }
                }
                Loc::Void
            },
            BuiltinFunction::Random => {
                if regs.len() < 1 {
                    Loc::Void
                } else {
                    let t = self.alloc_reg();
                    let res = self.r(t);
                    self.emit_op(Opcode::Rnd(res, 0xFF));
                    let ghost b1 = self.bytes@;
                    self.emit_op(Opcode::And(res, regs[0]));
                    proof {
                        lemma_appends_push(a, a, b1, seq![], Opcode::Rnd(res, 0xFF));
                        lemma_appends_push(a, b1, self.bytes@, seq![Opcode::Rnd(res, 0xFF)], Opcode::And(res, regs@[0]));
                    }
                    Loc::Reg { reg: res, owned: true }
                }
            },
            BuiltinFunction::Bcd => {
                if regs.len() >= 1 {
                    self.emit_op(Opcode::LdBVx(regs[0]));
                    proof {
                        lemma_appends_push(a, a, self.bytes@, seq![], Opcode::LdBVx(regs@[0]));
                    }
                }
                Loc::Void
            },
            BuiltinFunction::DrawDigit => {
                if regs.len() >= 3 {
                    self.emit_op(Opcode::LdFVx(regs[0]));
                    let ghost b1 = self.bytes@;
                    self.emit_op(Opcode::Drw(regs[1], regs[2], SpriteHeight::new(5)));
                    proof {
                        lemma_appends_push(a, a, b1, seq![], Opcode::LdFVx(regs@[0]));
                        assert(self.bytes@.subrange(0, a.len() + 2int) =~= b1);
                    }
                }
                Loc::Void
            },
            BuiltinFunction::RandomEnum => {
                let count: usize = if args.len() >= 1 {
                    match &args[0].kind {
                        ExprKind::Ident(ename) => match find_key(&self.enums, ename) {
                            Some(e) => {
                                proof {
                                    lemma_lookup_first(self.enums@, ename@, e as int);
                                }
                                self.enums[e].1.len()
                            },
                            None => 0,
                        },
                        _ => 0,
                    }
                } else {
                    0
                };
                self.codegen_random_enum(count)
            },
        };
        proof {
            assert(Self::builtin_code(*old(self), sts, regs@, *expr, *self, r));
        }
        r
    }

    /// A uniformly random value below `count`: `RND` with the smallest all-ones mask that
    /// covers `count - 1`, retried while the value is not below `count`.
    fn codegen_random_enum(&mut self, count: usize) -> (r: Loc)
        requires
            old(self).wf(),
        ensures
            Self::step(*old(self), *final(self)),
            Self::random_enum_code(*old(self), *final(self), clamp_u8(count as int), r),
    {
        let n: u8 = if count > 255 {
            255
        } else {
            count as u8
        };
        let mask = mask_for(n);
        let t = self.alloc_reg();
        let res = self.r(t);
        let top = self.here();
        let ghost a = self.bytes@;
        proof {
            lemma_appends_none(a);
        }
        self.emit_op(Opcode::Rnd(res, mask));
        proof {
            lemma_appends_push(a, a, self.bytes@, seq![], Opcode::Rnd(res, mask));
            assert(seq![].push(Opcode::Rnd(res, mask)) =~= seq![Opcode::Rnd(res, mask)]);
        }
        if n > 1 && (mask as u16) + 1 != n as u16 {
            // retry while res >= n
            let tt = self.alloc_reg();
            let tmp = self.r(tt);
            let ghost b1 = self.bytes@;
            self.emit_op(Opcode::LdImm(tmp, n));
            let ghost b2 = self.bytes@;
            self.emit_op(Opcode::Subn(tmp, res));
            let ghost b3 = self.bytes@;
            // VF = (res >= n)
            self.emit_op(Opcode::SeImm(Register::VF, 0));
            let ghost b4 = self.bytes@;
            self.emit_jp_to(top);
            proof {
                let o1 = seq![Opcode::Rnd(res, mask)];
                lemma_appends_push(a, b1, b2, o1, Opcode::LdImm(tmp, n));
                let o2 = o1.push(Opcode::LdImm(tmp, n));
                lemma_appends_push(a, b2, b3, o2, Opcode::Subn(tmp, res));
                let o3 = o2.push(Opcode::Subn(tmp, res));
                lemma_appends_push(a, b3, b4, o3, Opcode::SeImm(Register::VF, 0));
                assert(self.bytes@.subrange(0, a.len() + 8int) =~= b4);
                assert(o3.push(Opcode::SeImm(Register::VF, 0)) =~= seq![
                    Opcode::Rnd(res, mask),
                    Opcode::LdImm(tmp, n),
                    Opcode::Subn(tmp, res),
                    Opcode::SeImm(Register::VF, 0),
                ]);
                assert(word_at(self.bytes@, a.len() + 8int) == 0x1000 + addr_of_spec(
                    0x200usize.saturating_add(a.len() as usize),
                ));
                assert(retry_code(a, self.bytes@, res, mask, n, tmp));
            }
        }
        proof {
            assert(mask_covers(mask, n));
            assert(clamp_u8(count as int) == n);
            assert(old(self).next_free_reg <= 14 ==> res.idx() == old(self).next_free_reg);
            assert(a == old(self).bytes@);
            assert(!(n > 1 && mask + 1 != n) ==> appends(a, self.bytes@, seq![Opcode::Rnd(res, mask)]));
            assert(exists|m: u8|
                #![trigger mask_covers(m, n)]
                mask_covers(m, n) && if n > 1 && m + 1 != n {
                    exists|tm: Register| #[trigger] retry_code(a, self.bytes@, res, m, n, tm)
                } else {
                    appends(a, self.bytes@, seq![Opcode::Rnd(res, m)])
                });
            assert(Self::random_enum_code(*old(self), *self, n, Loc::Reg { reg: res, owned: true }));
        }
        Loc::Reg { reg: res, owned: true }
    }

    #[verifier::loop_isolation(false)]
    fn codegen_call(&mut self, expr: &Expr) -> (r: Loc)
        requires
            old(self).wf(),
        ensures
            Self::step(*old(self), *final(self)),
            expr.kind is Call ==> Self::call_code(*old(self), *final(self), *expr, r),
        decreases expr, 0nat,
    {
        let (name, args) = match &expr.kind {
            ExprKind::Call { name, args } => (name, args),
            _ => return Loc::Void,
        };
        let live = self.next_free_reg;
        let (areas, ret_area, is_leaf) = match find_key(&self.fns, name) {
            Some(k) => (
                clone_areas(&self.fns[k].1.param_areas),
                match &self.fns[k].1.ret_area {
                    Some((off, sn)) => Some((*off, sn.clone())),
                    None => None,
                },
                self.fns[k].1.is_leaf,
            ),
            None => (Vec::new(), None, false),
        };
        // evaluate the arguments: scalars into fresh temporaries, structs into their areas
        let mut scalar_regs: Vec<Register> = Vec::new();
        let mut k: usize = 0;
        while k < args.len()
            invariant
                Self::step(*old(self), *self),
            decreases args.len() - k,
        {
            let area = if k < areas.len() {
                areas[k]
            } else {
                None
            };
            let loc = self.codegen_expr(&args[k]);
            match (loc, area) {
                (Loc::Mem { offset, sname }, Some(dst)) => {
                    let size = self.struct_size(&sname);
                    self.emit_copy_block(dst, offset, size);
                },
                (Loc::Reg { reg, .. }, None) => {
                    let t = self.alloc_reg();
                    let tr = self.r(t);
                    self.emit_move(tr, reg);
                    scalar_regs.push(tr);
                },
                (_, None) => {
                    let t = self.alloc_reg();
                    scalar_regs.push(self.r(t));
                },
                _ => {},
            }
            k = k + 1;
        }
        // caller-save: a leaf callee only touches the registers it uses
        let mut save: u8 = live;
        if is_leaf {
            if let Some(u) = find_key(&self.usage, name) {
                if self.usage[u].1 < save {
                    save = self.usage[u].1;
                }
            }
        }
        if save > 15 {
            save = 15;
        }
        let save_area = self.alloc_scratch(save as usize);
        if save > 0 {
            self.emit_ref(RefKind::Scratch(save_area));
            let last = self.r(save - 1);
            self.emit_op(Opcode::LdIVx(last));
        }
        // scalar arguments go to V0, V1, ...
        let mut j: usize = 0;
        while j < scalar_regs.len()
            invariant
                Self::step(*old(self), *self),
            decreases scalar_regs.len() - j,
        {
            if j <= 14 {
                let target = self.r(j as u8);
                self.emit_move(target, scalar_regs[j]);
            }
            j = j + 1;
        }
        let callee = name.clone();
        // where the `CALL` goes
        let call_at = self.here();
        let ghost pre_call = *self;
        let ghost callee_v = callee@;
        self.emit_ref(RefKind::Call(callee));
        let ghost ci = pre_call.forward_refs@.len() as int;
        let ghost after_call = *self;
        // the result
        if live > self.floor {
            self.next_free_reg = live;
        } else {
            self.next_free_reg = self.floor;
        }
        let result = match ret_area {
            Some((off, sn)) => {
                let size = self.struct_size(&sn);
                let tmp = self.alloc_scratch(size);
                self.emit_copy_block(tmp, off, size);
                Loc::Mem { offset: tmp, sname: sn }
            },
            None => {
                let t = self.alloc_reg();
                let res = self.r(t);
                self.emit_move(res, Self::v0());
                Loc::Reg { reg: res, owned: true }
            },
        };
        let ghost s_res = *self;
        if save > 0 {
            self.emit_ref(RefKind::Scratch(save_area));
            let ghost b1 = self.bytes@;
            let last = self.r(save - 1);
            self.emit_op(Opcode::LdVxI(last));
            proof {
                lemma_prefix_trans(s_res.bytes@, b1, self.bytes@);
            }
        }
        proof {
            let ghost_res = result;
            if let Loc::Reg { reg: rr, .. } = ghost_res {
                let o = after_call.forward_refs@[ci].offset.0 as int;
                assert(o == call_at);
                assert(self.forward_refs@[ci] == after_call.forward_refs@[ci]);
                assert(callee_v == name@);
                if rr.idx() != 0 {
                    assert(word_at(self.bytes@, o + 2) == word_at(s_res.bytes@, o + 2)) by {
                        if save > 0 {
                            assert(self.bytes@[o + 2] == s_res.bytes@[o + 2]);
                            assert(self.bytes@[o + 3] == s_res.bytes@[o + 3]);
                        } else {
                            assert(self.bytes@ == s_res.bytes@);
                        }
                    }
                }
                assert(Self::call_ref_at(*self, ci, name@, old(self).bytes@.len() as int));
            }
        }
        result
    }

    /// A call of the current function in tail position: the arguments replace the
    /// parameters and control jumps back to the function's start.
    #[verifier::loop_isolation(false)]
    fn codegen_self_tail_call(&mut self, expr: &Expr)
        requires
            old(self).wf(),
        ensures
            Self::step(*old(self), *final(self)),
            old(self).current_fn matches Some((_, start, _)) ==> (expr.kind is Call ==> final(self).bytes@.len()
                >= old(self).bytes@.len() + 2 && final(self).forward_refs@.len() > 0
                && final(self).forward_refs@.last().offset.0 == final(self).bytes@.len() - 2
                && final(self).forward_refs@.last().kind == RefKind::Jump(start)),
        decreases expr, 0nat,
    {
        let args = match &expr.kind {
            ExprKind::Call { args, .. } => args,
            _ => return,
        };
        let (name, start) = match &self.current_fn {
            Some((n, s, _)) => (n.clone(), *s),
            None => return,
        };
        let areas = match find_key(&self.fns, &name) {
            Some(k) => clone_areas(&self.fns[k].1.param_areas),
            None => Vec::new(),
        };
        // every argument is evaluated before any parameter is overwritten
        let mut scalar_regs: Vec<Register> = Vec::new();
        let mut struct_copies: Vec<(usize, usize, usize)> = Vec::new();
        let mut k: usize = 0;
        while k < args.len()
            invariant
                Self::step(*old(self), *self),
            decreases args.len() - k,
        {
            let area = if k < areas.len() {
                areas[k]
            } else {
                None
            };
            let loc = self.codegen_expr(&args[k]);
            match (loc, area) {
                (Loc::Mem { offset, sname }, Some(dst)) => {
                    let size = self.struct_size(&sname);
                    let tmp = self.alloc_scratch(size);
                    self.emit_copy_block(tmp, offset, size);
                    struct_copies.push((dst, tmp, size));
                },
                (Loc::Reg { reg, .. }, None) => {
                    let t = self.alloc_reg();
                    let tr = self.r(t);
                    self.emit_move(tr, reg);
                    scalar_regs.push(tr);
                },
                (_, None) => {
                    let t = self.alloc_reg();
                    scalar_regs.push(self.r(t));
                },
                _ => {},
            }
            k = k + 1;
        }
        let mut k: usize = 0;
        while k < struct_copies.len()
            invariant
                Self::step(*old(self), *self),
            decreases struct_copies.len() - k,
        {
            let (dst, src, size) = struct_copies[k];
            self.emit_copy_block(dst, src, size);
            k = k + 1;
        }
        let mut j: usize = 0;
        while j < scalar_regs.len()
            invariant
                Self::step(*old(self), *self),
            decreases scalar_regs.len() - j,
        {
            if j <= 14 {
                let target = self.r(j as u8);
                self.emit_move(target, scalar_regs[j]);
            }
            j = j + 1;
        }
        self.emit_ref(RefKind::Jump(start));
    }

    #[verifier::loop_isolation(false)]
    #[verifier::spinoff_prover]
    #[verifier::rlimit(60)]
    fn codegen_if(&mut self, expr: &Expr, tail: bool) -> (r: Loc)
        requires
            old(self).wf(),
        ensures
            Self::step(*old(self), *final(self)),
            expr.kind is If && Self::ready_for(*old(self), *expr) ==> (r matches Loc::Reg {
                reg,
                owned,
            } && Self::emits_value(*old(self), *final(self), *expr, reg, owned)),
        decreases expr, 0nat,
    {
        let (cond, then_block, else_block) = match &expr.kind {
            ExprKind::If { cond, then_block, else_block } => (cond, then_block, else_block),
            _ => return Loc::Void,
        };
        let (c, _) = match self.codegen_reg(cond) {
            Some(x) => x,
            None => return Loc::Void,
        };
        let ghost s1 = *self;
        let t = self.alloc_reg();
        let res = self.r(t);
        let saved_floor = self.floor;
        self.floor = self.next_free_reg;
        self.emit_op(Opcode::SneImm(c, 0));
        let ghost s2 = self.bytes@;
        let jp_else = self.emit_placeholder();
        let ghost sa = *self;
        proof {
            lemma_prefix_trans(s1.bytes@, s2, sa.bytes@);
        }
        let then_loc = if tail {
            self.codegen_tail(then_block)
        } else {
            self.codegen_expr(then_block)
        };
        let ghost sb = *self;
        let ghost lt = then_loc;
        let mut block: Option<(usize, String)> = None;
        let mut has_reg = false;
        match then_loc {
            Loc::Reg { reg, .. } => {
                self.emit_move(res, reg);
                has_reg = true;
            },
            Loc::Mem { offset, sname } => {
                let size = self.struct_size(&sname);
                let b = self.alloc_scratch(size);
                self.emit_copy_block(b, offset, size);
                block = Some((b, sname));
            },
            Loc::Void => {},
        }
        let ghost s5 = *self;
        let ghost mut s6 = *self;
        let ghost mut s7 = *self;
        let ghost mut sc = *self;
        let ghost mut sd = *self;
        let ghost mut s9 = *self;
        let ghost mut le = Loc::Void;
        let ghost mut el = *expr;
        let result = match else_block {
            Some(else_block) => {
                proof {
                    el = **else_block;
                }
                let jp_end = self.emit_placeholder();
                proof {
                    s6 = *self;
                }
                let else_at = self.here();
                let a = self.code_addr(else_at);
                self.patch_at(jp_else, Opcode::Jp(a));
                proof {
                    s7 = *self;
                }
                self.next_free_reg = self.floor;
                proof {
                    sc = *self;
                }
                let else_loc = if tail {
                    self.codegen_tail(else_block)
                } else {
                    self.codegen_expr(else_block)
                };
                proof {
                    sd = *self;
                    le = else_loc;
                }
                match else_loc {
                    Loc::Reg { reg, .. } => {
                        self.emit_move(res, reg);
                        has_reg = true;
                    },
                    Loc::Mem { offset, sname } => {
                        let size = self.struct_size(&sname);
                        match &block {
                            Some((b, _)) => {
                                self.emit_copy_block(*b, offset, size);
                            },
                            None => {
                                let b = self.alloc_scratch(size);
                                self.emit_copy_block(b, offset, size);
                                block = Some((b, sname));
                            },
                        }
                    },
                    Loc::Void => {},
                }
                proof {
                    s9 = *self;
                }
                let end = self.here();
                let a = self.code_addr(end);
                self.patch_at(jp_end, Opcode::Jp(a));
                match block {
                    Some((b, sn)) => Loc::Mem { offset: b, sname: sn },
                    None => if has_reg {
                        Loc::Reg { reg: res, owned: true }
                    } else {
                        Loc::Void
                    },
                }
            },
            None => {
                let end = self.here();
                let a = self.code_addr(end);
                self.patch_at(jp_else, Opcode::Jp(a));
                Loc::Void
            },
        };
        self.floor = saved_floor;
        if self.next_free_reg < t + 1 {
            self.next_free_reg = t + 1;
        }
        proof {
            if Self::ready_for(*old(self), *expr) {
                self.lemma_if_value(
                    *old(self),
                    s1,
                    sa,
                    sb,
                    s5,
                    s6,
                    s7,
                    sc,
                    sd,
                    s9,
                    *expr,
                    **cond,
                    **then_block,
                    el,
                    c,
                    res,
                    lt,
                    le,
                );
            }
        }
        result
    }

    /// What a `match` of register expressions gives its arms once its scrutinee has been
    /// computed into `s` by the code `pre` and `t` allocated for its value: every arm's body
    /// can be computed above `t`, every pattern but the last is an integer literal, and the
    /// scrutinee's code computes it.
    spec fn match_ready(s0: Self, e: Expr, s: Register, t: u8, pre: Seq<u8>) -> bool {
        match e.kind {
            ExprKind::Match { scrutinee, arms } => {
                let av = arms@;
                let locals = s0.locals@;
                &&& av.len() > 0
                &&& t <= 14
                &&& s.idx() < t
                &&& t == s0.next_free_reg + demand(*scrutinee)
                &&& locals_below(locals, s0.next_free_reg as int)
                &&& s0.bytes@.len() <= pre.len()
                &&& pre.subrange(0, s0.bytes@.len() as int) == s0.bytes@
                &&& computes(
                    pre,
                    s0.bytes@.len() as int,
                    pre.len() as int,
                    s0.next_free_reg as int,
                    s.idx() as int,
                    *scrutinee,
                    locals,
                )
                &&& forall|i: int|
                    0 <= i < av.len() ==> is_reg_expr((#[trigger] av[i]).body, local_names(locals))
                        && fits(av[i].body, (t + 1) as nat)
                &&& forall|i: int| 0 <= i < av.len() - 1 ==> (#[trigger] av[i]).pattern.kind is IntLiteral
            },
            _ => false,
        }
    }

    /// A `match` of register expressions, its scrutinee computed (state `s1`) and `t`
    /// allocated: [`match_ready`].
    proof fn lemma_match_ready(s0: Self, s1: Self, e: Expr, s: Register, t: u8)
        requires
            s0.wf(),
            Self::ready_for(s0, e),
            e.kind matches ExprKind::Match { scrutinee, arms } && arms@.len() > 0 && (Self::ready_for(
                s0,
                *scrutinee,
            ) ==> exists|co: bool| Self::emits_value(s0, s1, *scrutinee, s, co)),
            s1.next_free_reg <= 14 ==> t == s1.next_free_reg,
        ensures
            Self::match_ready(s0, e, s, t, s1.bytes@),
            s1.next_free_reg <= 14,
            t == s1.next_free_reg,
            s1.locals@ == s0.locals@,
            s1.forward_refs@ == s0.forward_refs@,
            s1.current_fn == s0.current_fn,
            s1.floor == s0.floor,
    {
        let (scrutinee, arms) = match e.kind {
            ExprKind::Match { scrutinee, arms } => (*scrutinee, arms@),
            _ => arbitrary(),
        };
        let locals = s0.locals@;
        assert(Self::ready_for(s0, scrutinee));
        let co = choose|co: bool| Self::emits_value(s0, s1, scrutinee, s, co);
        assert(locals_below(locals, s0.next_free_reg as int)) by {
            assert forall|i: int| 0 <= i < locals.len() implies ((#[trigger] locals[i]).1 matches Binding::Reg(
                r,
            ) && r < s0.next_free_reg as int) by {
                assert(locals[i].1 matches Binding::Reg(r) && r < s0.floor as int);
            }
        }
        let n = (t + 1) as nat;
        assert forall|i: int| 0 <= i < arms.len() implies is_reg_expr((#[trigger] arms[i]).body, local_names(locals))
            && fits(arms[i].body, n) by {
            lemma_arms_ok_at(arms, local_names(locals), arms.len() as int, i);
            lemma_arms_fit_at(arms, n, arms.len() as int, i);
        }
        assert forall|i: int| 0 <= i < arms.len() - 1 implies (#[trigger] arms[i]).pattern.kind is IntLiteral by {
            lemma_arms_ok_at(arms, local_names(locals), arms.len() as int, i);
        }
    }

    /// A `match`'s arm `k`, not the last, generated from the state `s_k` (its start): the
    /// `SE` on its pattern (`s_se`), the placeholder of its jump to the next arm (`sa`), its
    /// body (`sb`), the copy of its value (`s5`), the placeholder of its jump to the end
    /// (`s6`), and the jump to the next arm filled in (`self`). One more arm is laid out.
    #[verifier::spinoff_prover]
    #[verifier::rlimit(60)]
    proof fn lemma_arm_laid(
        self,
        s_k: Self,
        s_se: Seq<u8>,
        sa: Self,
        sb: Self,
        s5: Self,
        s6: Self,
        s0: Self,
        e: Expr,
        arms: Seq<MatchArm>,
        hs: Seq<int>,
        ps: Seq<int>,
        jes0: Seq<usize>,
        jes: Seq<usize>,
        rs: Seq<Register>,
        k: int,
        pre: Seq<u8>,
        s: Register,
        t: Register,
        val: u8,
        lk: Loc,
    )
        requires
            Self::match_ready(s0, e, s, t.idx(), pre),
            e.kind matches ExprKind::Match { arms: av, .. } && av@ == arms,
            0 <= k < arms.len() - 1,
            arms_laid(s_k.bytes@, arms, hs, ps, jes0, rs, k, pre, s, t, s0.locals@),
            hs.len() == k + 1,
            ps.len() == k,
            jes0.len() == k,
            rs.len() == k,
            hs[k] == s_k.bytes@.len(),
            s_k.next_free_reg == t.idx() + 1,
            s_k.floor == t.idx() + 1,
            s_k.locals@ == s0.locals@,
            arms[k].pattern.kind matches ExprKind::IntLiteral(v) ==> val == v as u8,
            s_se.len() == s_k.bytes@.len() + 2,
            s_se.subrange(0, s_k.bytes@.len() as int) == s_k.bytes@,
            word_at(s_se, s_k.bytes@.len() as int) == Opcode::SeImm(s, val).word(),
            sa.bytes@.len() == s_se.len() + 2,
            sa.bytes@.subrange(0, s_se.len() as int) == s_se,
            sa.next_free_reg == s_k.next_free_reg,
            sa.floor == s_k.floor,
            sa.locals@ == s_k.locals@,
            sa.forward_refs@ == s_k.forward_refs@,
            sa.current_fn == s_k.current_fn,
            Self::ready_for(sa, arms[k].body) ==> (lk matches Loc::Reg { reg, owned }
                && Self::emits_value(sa, sb, arms[k].body, reg, owned)),
            sb.wf(),
            lk matches Loc::Reg { reg, .. } ==> (reg.idx() != t.idx() ==> Self::one_word(
                sb,
                s5,
                Opcode::LdReg(t, reg),
            )) && (reg.idx() == t.idx() ==> s5 == sb),
            s6.bytes@.len() == s5.bytes@.len() + 2,
            s6.bytes@.subrange(0, s5.bytes@.len() as int) == s5.bytes@,
            s6.locals@ == s5.locals@,
            s6.forward_refs@ == s5.forward_refs@,
            s6.current_fn == s5.current_fn,
            s5.bytes@.len() <= usize::MAX,
            jes == jes0.push(s5.bytes@.len() as usize),
            self.bytes@.len() == s6.bytes@.len(),
            forall|i: int|
                0 <= i < s6.bytes@.len() && i != s_se.len() && i != s_se.len() + 1 ==> self.bytes@[i]
                    == s6.bytes@[i],
            word_at(self.bytes@, s_se.len() as int) == 0x1000 + addr_of_spec(
                0x200usize.saturating_add(s6.bytes@.len() as usize),
            ),
            self.locals@ == s6.locals@,
            self.forward_refs@ == s6.forward_refs@,
            self.current_fn == s6.current_fn,
        ensures
            lk is Reg,
            arms_laid(
                self.bytes@,
                arms,
                hs.push(s6.bytes@.len() as int),
                ps.push(sb.bytes@.len() as int),
                jes,
                rs.push(lk->reg),
                k + 1,
                pre,
                s,
                t,
                s0.locals@,
            ),
            self.locals@ == s_k.locals@,
            self.forward_refs@ == s_k.forward_refs@,
            self.current_fn == s_k.current_fn,
    {
        let locals = s0.locals@;
        let body = arms[k].body;
        assert(arms[k] == arms[k]);
        assert(is_reg_expr(body, local_names(locals)) && fits(body, (t.idx() + 1) as nat));
        assert(locals_below(locals, t.idx() + 1)) by {
            assert forall|i: int| 0 <= i < locals.len() implies ((#[trigger] locals[i]).1 matches Binding::Reg(
                r,
            ) && r < t.idx() + 1) by {
                assert(locals[i].1 matches Binding::Reg(r) && r < s0.next_free_reg as int);
            }
        }
        assert(Self::ready_for(sa, body));
        let r = lk->reg;
        let o = lk->owned;
        assert(Self::emits_value(sa, sb, body, r, o));
        let b = self.bytes@;
        let h = hs[k];
        let p = sb.bytes@.len() as int;
        let je = s5.bytes@.len() as int;
        let next = s6.bytes@.len() as int;
        lemma_prefix_elems(s_k.bytes@, s_se);
        lemma_prefix_elems(s_se, sa.bytes@);
        lemma_prefix_elems(sa.bytes@, sb.bytes@);
        assert(s5.bytes@.subrange(0, p) == sb.bytes@) by {
            if r.idx() == t.idx() {
                assert(sb.bytes@.subrange(0, p) =~= sb.bytes@);
            }
        }
        lemma_prefix_elems(sb.bytes@, s5.bytes@);
        lemma_prefix_elems(s5.bytes@, s6.bytes@);
        assert forall|x: int| 0 <= x < h implies #[trigger] b[x] == s_k.bytes@[x] by {
            assert(b[x] == s6.bytes@[x]);
        }
        assert(word_at(b, h) == word_at(s_se, h)) by {
            assert(b[h] == s6.bytes@[h]);
            assert(b[h + 1] == s6.bytes@[h + 1]);
        }
        assert forall|x: int| h + 4 <= x < p implies #[trigger] b[x] == sb.bytes@[x] by {
            assert(b[x] == s6.bytes@[x]);
        }
        lemma_computes_frame(sb.bytes@, b, h + 4, p, t.idx() + 1, r.idx() as int, body, locals);
        if r.idx() != t.idx() {
            assert(word_at(b, p) == word_at(s5.bytes@, p)) by {
                assert(b[p] == s6.bytes@[p]);
                assert(b[p + 1] == s6.bytes@[p + 1]);
            }
        }
        let hs2 = hs.push(next);
        let ps2 = ps.push(p);
        let rs2 = rs.push(r);
        assert(jes[k] == je);
        assert(arm_code(b, arms, hs2, ps2, jes, rs2, k, s, t, locals));
        lemma_arms_laid_frame(s_k.bytes@, b, arms, hs, ps, jes0, rs, k, pre, s, t, locals);
        lemma_arms_laid_push(b, arms, hs, ps, jes0, rs, k, pre, s, t, locals, next, p, je as usize, r);
    }

    /// A `match`'s last arm generated from the state `sl` (its start) to `sm`, and its
    /// value copied (`self`): the whole `match` is laid out, no jump to the end filled in yet.
    #[verifier::spinoff_prover]
    #[verifier::rlimit(60)]
    proof fn lemma_last_arm_laid(
        self,
        sl: Self,
        sm: Self,
        s0: Self,
        e: Expr,
        arms: Seq<MatchArm>,
        hs: Seq<int>,
        ps: Seq<int>,
        jes: Seq<usize>,
        rs: Seq<Register>,
        pre: Seq<u8>,
        s: Register,
        t: Register,
        ll: Loc,
    )
        requires
            Self::match_ready(s0, e, s, t.idx(), pre),
            e.kind matches ExprKind::Match { arms: av, .. } && av@ == arms,
            arms_laid(sl.bytes@, arms, hs, ps, jes, rs, arms.len() - 1, pre, s, t, s0.locals@),
            hs.len() == arms.len(),
            ps.len() == arms.len() - 1,
            jes.len() == arms.len() - 1,
            rs.len() == arms.len() - 1,
            hs[arms.len() - 1] == sl.bytes@.len(),
            sl.next_free_reg == t.idx() + 1,
            sl.floor == t.idx() + 1,
            sl.locals@ == s0.locals@,
            Self::ready_for(sl, arms[arms.len() - 1].body) ==> (ll matches Loc::Reg { reg, owned }
                && Self::emits_value(sl, sm, arms[arms.len() - 1].body, reg, owned)),
            sm.wf(),
            ll matches Loc::Reg { reg, .. } ==> (reg.idx() != t.idx() ==> Self::one_word(
                sm,
                self,
                Opcode::LdReg(t, reg),
            )) && (reg.idx() == t.idx() ==> self == sm),
            self.next_free_reg == sm.next_free_reg,
        ensures
            ll is Reg,
            ends_patched(
                self.bytes@,
                arms,
                hs,
                ps,
                jes,
                rs,
                0,
                pre,
                s,
                t,
                s0.locals@,
                sm.bytes@.len() as int,
                ll->reg,
                self.bytes@.len() as int,
            ),
            self.next_free_reg == t.idx() + 1 + demand(arms[arms.len() - 1].body),
            self.locals@ == sl.locals@,
            self.forward_refs@ == sl.forward_refs@,
            self.current_fn == sl.current_fn,
    {
        let locals = s0.locals@;
        let last = arms.len() - 1;
        let body = arms[last].body;
        assert(arms[last] == arms[last]);
        assert(is_reg_expr(body, local_names(locals)) && fits(body, (t.idx() + 1) as nat));
        assert(locals_below(locals, t.idx() + 1)) by {
            assert forall|i: int| 0 <= i < locals.len() implies ((#[trigger] locals[i]).1 matches Binding::Reg(
                r,
            ) && r < t.idx() + 1) by {
                assert(locals[i].1 matches Binding::Reg(r) && r < s0.next_free_reg as int);
            }
        }
        assert(Self::ready_for(sl, body));
        let r = ll->reg;
        let o = ll->owned;
        assert(Self::emits_value(sl, sm, body, r, o));
        let b = self.bytes@;
        let pl = sm.bytes@.len() as int;
        lemma_prefix_elems(sl.bytes@, sm.bytes@);
        assert(b.subrange(0, pl) == sm.bytes@) by {
            if r.idx() == t.idx() {
                assert(sm.bytes@.subrange(0, pl) =~= sm.bytes@);
            }
        }
        lemma_prefix_elems(sm.bytes@, b);
        lemma_arms_laid_frame(sl.bytes@, b, arms, hs, ps, jes, rs, last, pre, s, t, locals);
        lemma_computes_frame(sm.bytes@, b, hs[last], pl, t.idx() + 1, r.idx() as int, body, locals);
    }

    /// A `match` laid out with all its jumps to the end filled in computes its value into `t`.
    #[verifier::spinoff_prover]
    #[verifier::rlimit(60)]
    proof fn lemma_match_value(
        self,
        s0: Self,
        e: Expr,
        arms: Seq<MatchArm>,
        hs: Seq<int>,
        ps: Seq<int>,
        jes: Seq<usize>,
        rs: Seq<Register>,
        pre: Seq<u8>,
        s: Register,
        t: Register,
        pl: int,
        rl: Register,
    )
        requires
            Self::match_ready(s0, e, s, t.idx(), pre),
            e.kind matches ExprKind::Match { arms: av, .. } && av@ == arms,
            ends_patched(
                self.bytes@,
                arms,
                hs,
                ps,
                jes,
                rs,
                arms.len() - 1,
                pre,
                s,
                t,
                s0.locals@,
                pl,
                rl,
                self.bytes@.len() as int,
            ),
            self.next_free_reg == t.idx() + 1 + demand(arms[arms.len() - 1].body),
            self.floor == s0.floor,
            self.locals@ == s0.locals@,
            self.forward_refs@ == s0.forward_refs@,
            self.current_fn == s0.current_fn,
        ensures
            Self::emits_value(s0, self, e, t, true),
    {
        let scrutinee = match e.kind {
            ExprKind::Match { scrutinee, .. } => *scrutinee,
            _ => arbitrary(),
        };
        let locals = s0.locals@;
        let b = self.bytes@;
        let a = s0.bytes@.len() as int;
        let end = b.len() as int;
        lemma_prefix_elems(pre, b);
        lemma_computes_frame(pre, b, a, pre.len() as int, s0.next_free_reg as int, s.idx() as int, scrutinee, locals);
        assert forall|env: Seq<(Seq<char>, u8)>| #[trigger] reg_value(e, env) == match first_match(
            arms,
            reg_value(scrutinee, env),
            arms.len() - 1,
        ) {
            Some(i) => if 0 <= i < arms.len() {
                reg_value(arms[i].body, env)
            } else {
                0
            },
            None => reg_value(arms[arms.len() - 1].body, env),
        } by {}
        lemma_match_computes(b, a, end, s0.next_free_reg as int, s, t, scrutinee, arms, hs, ps, jes, rs, pl, rl, e, locals);
        lemma_prefix_elems(s0.bytes@, pre);
        assert(b.subrange(0, a) =~= s0.bytes@);
    }

    /// Puts the value of one branch of an `if` or a `match` where the branches' value goes:
    /// a register value is copied to `res`, a struct to the scratch block that the first
    /// branch with one allocates. Returns that block and whether the value was a register.
    fn take_branch_value(
        &mut self,
        loc: Loc,
        res: Register,
        block: Option<(usize, String)>,
    ) -> (r: (Option<(usize, String)>, bool))
        requires
            old(self).wf(),
        ensures
            Self::step(*old(self), *final(self)),
            final(self).next_free_reg == old(self).next_free_reg,
            final(self).loop_breaks@ == old(self).loop_breaks@,
            loc matches Loc::Reg { reg, .. } ==> r.0 == block && r.1 && (reg.idx() != res.idx()
                ==> Self::one_word(*old(self), *final(self), Opcode::LdReg(res, reg))) && (reg.idx()
                == res.idx() ==> *final(self) == *old(self)),
    {
        match loc {
            Loc::Reg { reg, .. } => {
                self.emit_move(res, reg);
                (block, true)
            },
            Loc::Mem { offset, sname } => {
                let size = self.struct_size(&sname);
                match block {
                    Some((b, bn)) => {
                        self.emit_copy_block(b, offset, size);
                        (Some((b, bn)), false)
                    },
                    None => {
                        let b = self.alloc_scratch(size);
                        self.emit_copy_block(b, offset, size);
                        (Some((b, sname)), false)
                    },
                }
            },
            Loc::Void => (block, false),
        }
    }

    /// A `match`: each arm but the last tests its pattern against the scrutinee with `SE`
    /// and jumps to the next arm when it differs; the last arm is the default. Every arm's
    /// value goes to one register (or scratch block), and each arm but the last ends with a
    /// jump to the end, filled in once the end is known.
    #[verifier::loop_isolation(false)]
    fn codegen_match(&mut self, expr: &Expr, tail: bool) -> (r: Loc)
        requires
            old(self).wf(),
        ensures
            Self::step(*old(self), *final(self)),
            expr.kind is Match && Self::ready_for(*old(self), *expr) ==> (r matches Loc::Reg {
                reg,
                owned,
            } && Self::emits_value(*old(self), *final(self), *expr, reg, owned)),
        decreases expr, 0nat,
    {
        let (scrutinee, arms) = match &expr.kind {
            ExprKind::Match { scrutinee, arms } => (scrutinee, arms),
            _ => return Loc::Void,
        };
        let (s, _) = match self.codegen_reg(scrutinee) {
            Some(x) => x,
            None => return Loc::Void,
        };
        if arms.len() == 0 {
            return Loc::Void;
        }
        let ghost s1 = *self;
        let ghost ready = Self::ready_for(*old(self), *expr);
        let ghost locals = old(self).locals@;
        let t = self.alloc_reg();
        let res = self.r(t);
        let saved_floor = self.floor;
        self.floor = self.next_free_reg;
        let ghost inner = self.floor;
        let ghost ma = self.bytes@.len() as int;
        let ghost mut hs: Seq<int> = seq![ma];
        let ghost mut ps: Seq<int> = seq![];
        let ghost mut rs: Seq<Register> = seq![];
        proof {
            if ready {
                Self::lemma_match_ready(*old(self), s1, *expr, s, t);
                assert(self.bytes@.subrange(0, ma) =~= s1.bytes@);
                assert(inner == t + 1);
            }
        }
        let mut block: Option<(usize, String)> = None;
        let mut has_reg = false;
        let mut end_jumps: Vec<usize> = Vec::new();
        let last = arms.len() - 1;
        // every arm but the last tests its pattern; the last is the default
        let mut k: usize = 0;
        while k < last
            invariant
                Self::grows(*old(self), *self),
                self.floor == inner,
                saved_floor == old(self).floor,
                saved_floor <= inner,
                last + 1 == arms.len(),
                k <= last,
                forall|j: int|
                    0 <= j < end_jumps@.len() ==> slot(self.bytes@.len() as int, #[trigger] end_jumps@[j]),
                forall|j: int| 0 <= j < end_jumps@.len() ==> old(self).bytes@.len() <= #[trigger] end_jumps@[j],
                ready ==> block is None && (k > 0 ==> has_reg),
                ready ==> Self::match_ready(*old(self), *expr, s, t, s1.bytes@) && inner == t + 1,
                ready ==> arms_laid(
                    self.bytes@,
                    arms@,
                    hs,
                    ps,
                    end_jumps@,
                    rs,
                    k as int,
                    s1.bytes@,
                    s,
                    res,
                    locals,
                ),
                ready ==> hs.len() == k + 1 && ps.len() == k && end_jumps@.len() == k && rs.len()
                    == k && hs[k as int] == self.bytes@.len(),
                ready ==> self.locals@ == locals && self.forward_refs@ == old(self).forward_refs@
                    && self.current_fn == old(self).current_fn,
            decreases last - k,
        {
            self.next_free_reg = self.floor;
            let ghost s_k = *self;
            let ghost jes0 = end_jumps@;
            let val = self.pattern_value(&arms[k].pattern);
            self.emit_op(Opcode::SeImm(s, val));
            let ghost s_se = self.bytes@;
            let jn = self.emit_placeholder();
            let ghost sa = *self;
            let loc = if tail {
                self.codegen_tail(&arms[k].body)
            } else {
                self.codegen_expr(&arms[k].body)
            };
            let ghost sb = *self;
            let ghost lk = loc;
            let (nb, got) = self.take_branch_value(loc, res, block);
            block = nb;
            if got {
                has_reg = true;
            }
            let ghost s5 = *self;
            let je = self.emit_placeholder();
            end_jumps.push(je);
            let next = self.here();
            let a = self.code_addr(next);
            let ghost s6 = *self;
            self.patch_at(jn, Opcode::Jp(a));
            proof {
                if ready {
                    self.lemma_arm_laid(
                        s_k,
                        s_se,
                        sa,
                        sb,
                        s5,
                        s6,
                        *old(self),
                        *expr,
                        arms@,
                        hs,
                        ps,
                        jes0,
                        end_jumps@,
                        rs,
                        k as int,
                        s1.bytes@,
                        s,
                        res,
                        val,
                        lk,
                    );
                }
                hs = hs.push(next as int);
                ps = ps.push(sb.bytes@.len() as int);
                rs = rs.push(lk->reg);
            }
            k = k + 1;
        }
        self.next_free_reg = self.floor;
        let ghost sl = *self;
        let loc = if tail {
            self.codegen_tail(&arms[last].body)
        } else {
            self.codegen_expr(&arms[last].body)
        };
        let ghost sm = *self;
        let ghost ll = loc;
        let (nb, got) = self.take_branch_value(loc, res, block);
        block = nb;
        if got {
            has_reg = true;
        }
        let end = self.here();
        let ghost s9 = *self;
        let ghost pl = sm.bytes@.len() as int;
        let ghost rl = ll->reg;
        proof {
            if ready {
                self.lemma_last_arm_laid(
                    sl,
                    sm,
                    *old(self),
                    *expr,
                    arms@,
                    hs,
                    ps,
                    end_jumps@,
                    rs,
                    s1.bytes@,
                    s,
                    res,
                    ll,
                );
            }
        }
        let mut k: usize = 0;
        while k < end_jumps.len()
            invariant
                Self::grows(*old(self), *self),
                self.floor == inner,
                saved_floor == old(self).floor,
                saved_floor <= inner,
                forall|j: int|
                    0 <= j < end_jumps@.len() ==> slot(self.bytes@.len() as int, #[trigger] end_jumps@[j]),
                forall|j: int| 0 <= j < end_jumps@.len() ==> old(self).bytes@.len() <= #[trigger] end_jumps@[j],
                self.next_free_reg == s9.next_free_reg,
                ready ==> ends_patched(
                    self.bytes@,
                    arms@,
                    hs,
                    ps,
                    end_jumps@,
                    rs,
                    k as int,
                    s1.bytes@,
                    s,
                    res,
                    locals,
                    pl,
                    rl,
                    end as int,
                ),
                ready ==> self.locals@ == locals && self.forward_refs@ == old(self).forward_refs@
                    && self.current_fn == old(self).current_fn,
            decreases end_jumps.len() - k,
        {
            let a = self.code_addr(end);
            let ghost before = *self;
            self.patch_at(end_jumps[k], Opcode::Jp(a));
            proof {
                if ready {
                    lemma_end_patched(
                        before.bytes@,
                        self.bytes@,
                        arms@,
                        hs,
                        ps,
                        end_jumps@,
                        rs,
                        k as int,
                        s1.bytes@,
                        s,
                        res,
                        locals,
                        pl,
                        rl,
                        end as int,
                    );
                }
            }
            k = k + 1;
        }
        self.floor = saved_floor;
        if self.next_free_reg < t + 1 {
            self.next_free_reg = t + 1;
        }
        proof {
            if ready {
                self.lemma_match_value(
                    *old(self),
                    *expr,
                    arms@,
                    hs,
                    ps,
                    end_jumps@,
                    rs,
                    s1.bytes@,
                    s,
                    res,
                    pl,
                    rl,
                );
            }
        }
        match block {
            Some((b, sn)) => Loc::Mem { offset: b, sname: sn },
            None => if has_reg {
                Loc::Reg { reg: res, owned: true }
            } else {
                Loc::Void
            },
        }
    }

    /// The value a `match` pattern stands for.
    fn pattern_value(&self, pattern: &Expr) -> (r: u8)
        ensures
            pattern.kind matches ExprKind::IntLiteral(v) ==> r == v as u8,
    {
        match &pattern.kind {
            ExprKind::IntLiteral(v) => *v as u8,
            ExprKind::EnumVariant { enum_name, variant } => self.variant_value(enum_name, variant),
            _ => 0,
        }
    }

    #[verifier::loop_isolation(false)]
    fn codegen_struct_literal(&mut self, expr: &Expr) -> (r: Loc)
        requires
            old(self).wf(),
        ensures
            Self::step(*old(self), *final(self)),
        decreases expr, 0nat,
    {
        let (name, fields, base) = match &expr.kind {
            ExprKind::StructLiteral { name, fields, base } => (name, fields, base),
            _ => return Loc::Void,
        };
        let size = self.struct_size(name);
        let block = self.alloc_scratch(size);
        let start_reg = self.next_free_reg;
        if let Some(b) = base {
            if let Loc::Mem { offset, .. } = self.codegen_expr(b) {
                self.emit_copy_block(block, offset, size);
            }
            self.next_free_reg = if start_reg >= self.floor { start_reg } else { self.floor };
        }
        let mut k: usize = 0;
        while k < fields.len()
            invariant
                Self::step(*old(self), *self),
            decreases fields.len() - k,
        {
            if let Some((foff, fty)) = self.field_layout(name, &fields[k].0) {
                let at = block.saturating_add(foff);
                match self.codegen_expr(&fields[k].1) {
                    Loc::Reg { reg, .. } => {
                        self.emit_store_scratch(reg, at);
                    },
                    Loc::Mem { offset, sname } => {
                        let fsize = self.struct_size(&sname);
                        self.emit_copy_block(at, offset, fsize);
                    },
                    Loc::Void => {},
                }
            }
            self.next_free_reg = if start_reg >= self.floor { start_reg } else { self.floor };
            k = k + 1;
        }
        Loc::Mem { offset: block, sname: name.clone() }
    }

    #[verifier::loop_isolation(false)]
    fn codegen_block(&mut self, expr: &Expr, tail: bool) -> (r: Loc)
        requires
            old(self).wf(),
        ensures
            Self::step(*old(self), *final(self)),
            expr.kind is Block && Self::ready_for(*old(self), *expr) ==> (r matches Loc::Reg {
                reg,
                owned,
            } && Self::emits_value(*old(self), *final(self), *expr, reg, owned)),
        decreases expr, 0nat,
    {
        let (stmts, tail_expr) = match &expr.kind {
            ExprKind::Block { stmts, expr } => (stmts, expr),
            _ => return Loc::Void,
        };
        let ghost ready = Self::ready_for(*old(self), *expr);
        proof {
            if ready {
                assert(locals_below(old(self).locals@, old(self).next_free_reg as int));
            }
        }
        // the block's locals are dropped at its end
        let saved_floor = self.floor;
        let saved_locals = self.locals.len();
        self.floor = self.next_free_reg;
        let ghost inner = self.floor;
        proof {
            if ready {
                assert(self.locals@.subrange(0, old(self).locals@.len() as int) =~= old(self).locals@);
                assert(self.bytes@.subrange(0, old(self).bytes@.len() as int) =~= old(self).bytes@);
                assert forall|v: Seq<u8>| v.len() == 16 && 0x200 + self.bytes@.len() < 0x1000 implies (#[trigger] run_fwd(
                    v,
                    self.bytes@,
                    old(self).bytes@.len() as int,
                    self.bytes@.len() as int,
                ) matches Some(u) && u.len() == 16 && agree_below(u, v, old(self).next_free_reg as int)
                    && regs_env(self.locals@, u) == env_upto(stmts@, regs_env(old(self).locals@, v), 0)) by {
                    lemma_fwd_empty(v, self.bytes@, self.bytes@.len() as int);
                }
            }
        }
        let mut k: usize = 0;
        while k < stmts.len()
            invariant
                Self::grows(*old(self), *self),
                saved_floor == old(self).floor,
                saved_floor <= inner <= self.floor,
                ready ==> Self::lets_done(*old(self), *self, stmts@, k as int),
            decreases stmts.len() - k,
        {
            let ghost cur = *self;
            proof {
                if ready {
                    lemma_lets_ok_at(
                        stmts@,
                        local_names(old(self).locals@),
                        stmts@.len() as int,
                        k as int,
                    );
                    lemma_lets_fit_at(stmts@, old(self).next_free_reg as nat, stmts@.len() as int, k as int);
                    assert(Self::let_ready(cur, stmts@[k as int]));
                }
            }
            self.codegen_stmt(&stmts[k]);
            self.next_free_reg = self.floor;
            proof {
                if ready {
                    Self::lemma_let_step(*old(self), cur, *self, stmts@, k as int);
                }
            }
            k = k + 1;
        }
        let ghost cur = *self;
        let result = match tail_expr {
            Some(t) => if tail {
                self.codegen_tail(t)
            } else {
                self.codegen_expr(t)
            },
            None => Loc::Void,
        };
        let ghost st = *self;
        self.locals.truncate(saved_locals);
        self.floor = saved_floor;
        proof {
            if ready {
                let t = tail_expr->0;
                assert(Self::ready_for(cur, *t));
                Self::lemma_block_value(*old(self), cur, st, *self, *expr, *t, result->reg, result->owned);
            }
        }
        result
    }

    #[verifier::loop_isolation(false)]
    fn codegen_stmt(&mut self, stmt: &Stmt)
        requires
            old(self).wf(),
        ensures
            Self::grows(*old(self), *final(self)),
            old(self).floor <= final(self).floor,
            Self::let_ready(*old(self), *stmt) ==> Self::let_done(*old(self), *final(self), *stmt),
            stmt.kind matches StmtKind::Let { name, value, .. } ==> exists|s1: Self, r: Loc|
                #[trigger] Self::let_code(*old(self), s1, *final(self), value, name, r),
            stmt.kind matches StmtKind::Assign { name, value } ==> exists|s1: Self, r: Loc|
                #[trigger] Self::assign_code(*old(self), s1, *final(self), value, name, r),
            stmt.kind is Return ==> final(self).bytes@.len() >= 2 && (word_at(
                final(self).bytes@,
                final(self).bytes@.len() - 2,
            ) == Opcode::Ret.word() || word_at(final(self).bytes@, final(self).bytes@.len() - 2)
                == 0x1000 + addr_of_spec(
                0x200usize.saturating_add((final(self).bytes@.len() - 2) as usize),
            )),
        decreases stmt, 0nat,
    {
        match &stmt.kind {
            StmtKind::Let { name, value, .. } => {
                let start = self.next_free_reg;
                let loc = self.codegen_expr(value);
                let ghost s1 = *self;
                let ghost lr = loc;
                match loc {
                    Loc::Reg { reg, .. } => {
                        self.next_free_reg = start;
                        let t = self.alloc_reg();
                        let target = self.r(t);
                        self.emit_move(target, reg);
                        let ghost s2 = *self;
                        self.locals.push((name.clone(), Binding::Reg(t)));
                        self.floor = self.next_free_reg;
                        proof {
                            if Self::let_ready(*old(self), *stmt) {
                                let a = old(self).bytes@.len() as int;
                                let m = s1.bytes@.len() as int;
                                assert(Self::ready_for(*old(self), *value));
                                lemma_fits_demand(*value, start as nat);
                                if reg.idx() == t {
                                    assert(self.bytes@.subrange(0, m) =~= s1.bytes@);
                                }
                                lemma_prefix_trans(old(self).bytes@, s1.bytes@, self.bytes@);
                                lemma_computes_frame(
                                    s1.bytes@,
                                    self.bytes@,
                                    a,
                                    m,
                                    start as int,
                                    reg.idx() as int,
                                    *value,
                                    old(self).locals@,
                                );
                                lemma_then_move(
                                    self.bytes@,
                                    a,
                                    m,
                                    self.bytes@.len() as int,
                                    start as int,
                                    reg,
                                    target,
                                    *value,
                                    old(self).locals@,
                                );
                            }
                        }
                    },
                    Loc::Mem { offset, sname } => {
                        let size = self.struct_size(&sname);
                        let b = self.alloc_scratch(size);
                        self.emit_copy_block(b, offset, size);
                        self.locals.push((name.clone(), Binding::Mem { offset: b, sname }));
                    },
                    Loc::Void => {},
                }
                proof {
                    assert(Self::let_code(*old(self), s1, *self, *value, *name, lr));
                }
            },
            StmtKind::Assign { name, value } => {
                let val = self.codegen_expr(value);
                let ghost s1 = *self;
                let ghost lr = val;
                match self.lookup_local(name) {
                    Some(i) => {
                        let binding = match &self.locals[i].1 {
                            Binding::Reg(r) => Binding::Reg(*r),
                            Binding::Mem { offset, sname } => Binding::Mem {
                                offset: *offset,
                                sname: sname.clone(),
                            },
                        };
                        match (binding, val) {
                            (Binding::Reg(r), Loc::Reg { reg, .. }) => {
                                if r <= 15 {
                                    let target = self.r(r);
                                    self.emit_move(target, reg);
                                }
                            },
                            (Binding::Mem { offset: dst, sname }, Loc::Mem { offset: src, .. }) => {
                                let size = self.struct_size(&sname);
                                self.emit_copy_block(dst, src, size);
                            },
                            _ => {},
                        }
                    },
                    None => {
                        if let Loc::Reg { reg, .. } = val {
                            if find_key(&self.globals, name).is_some() {
                                self.emit_global_write(reg, name);
                            }
                        }
                    },
                }
                proof {
                    assert(Self::assign_code(*old(self), s1, *self, *value, *name, lr));
                }
            },
            StmtKind::IndexAssign { array, index, value } => {
                let idx = self.codegen_reg(index);
                let val = self.codegen_reg(value);
                if let (Some((ir, _)), Some((vr, _))) = (idx, val) {
                    if find_key(&self.globals, array).is_some() {
                        self.emit_ref(RefKind::Global(array.clone()));
                        self.emit_op(Opcode::AddI(ir));
                        self.emit_store_at_i(vr);
                    }
                }
            },
            StmtKind::Expr(e) => {
                self.codegen_expr(e);
            },
            StmtKind::Return(e) => {
                if let Some(e) = e {
                    let loc = self.codegen_expr(e);
                    self.emit_result(loc);
                }
                let is_main = match &self.current_fn {
                    Some((_, _, m)) => *m,
                    None => false,
                };
                self.emit_epilogue(is_main);
            },
            StmtKind::Break => {
                let offset = self.emit_placeholder();
                self.add_break(offset);
            },
        }
    }
}

/// `m` is the smallest all-ones mask that covers `n - 1`.
spec fn mask_covers(m: u8, n: u8) -> bool {
    &&& m == 0 || m == 1 || m == 3 || m == 7 || m == 15 || m == 31 || m == 63 || m == 127 || m == 255
    &&& m + 1 >= n
    &&& m == 0 || m / 2 + 1 < n
}

/// The smallest all-ones mask that covers `n - 1`.
fn mask_for(n: u8) -> (r: u8)
    ensures
        mask_covers(r, n),
{
    let mut mask: u8 = 0;
    while (mask as u16) + 1 < n as u16
        invariant
            mask == 0 || mask == 1 || mask == 3 || mask == 7 || mask == 15 || mask == 31
                || mask == 63 || mask == 127 || mask == 255,
            mask == 0 || mask / 2 + 1 < n,
        ensures
            mask + 1 >= n,
            mask == 0 || mask == 1 || mask == 3 || mask == 7 || mask == 15 || mask == 31
                || mask == 63 || mask == 127 || mask == 255,
            mask == 0 || mask / 2 + 1 < n,
        decreases 255 - mask,
    {
        if mask == 255 {
            break;
        }
        mask = mask * 2 + 1;
    }
    mask
}

/// Whether an expression calls a user function anywhere.
#[verifier::loop_isolation(false)]
fn calls_user_fn(expr: &Expr) -> (r: bool)
    decreases expr,
{
    match &expr.kind {
        ExprKind::Call { .. } => true,
        ExprKind::IntLiteral(_) | ExprKind::BoolLiteral(_) | ExprKind::Ident(_)
        | ExprKind::EnumVariant { .. } => false,
        ExprKind::BinaryOp { lhs, rhs, .. } => calls_user_fn(lhs) || calls_user_fn(rhs),
        ExprKind::UnaryOp { expr: inner, .. } => calls_user_fn(inner),
        ExprKind::BuiltinCall { args, .. } => any_calls(args),
        ExprKind::ArrayLiteral(elems) => any_calls(elems),
        ExprKind::If { cond, then_block, else_block } => {
            calls_user_fn(cond) || calls_user_fn(then_block) || match else_block {
                Some(e) => calls_user_fn(e),
                None => false,
            }
        },
        ExprKind::Loop { body } => calls_user_fn(body),
        ExprKind::Block { stmts, expr: tail } => {
            let mut k: usize = 0;
            while k < stmts.len()
                decreases stmts.len() - k,
            {
                if stmt_calls_user_fn(&stmts[k]) {
                    return true;
                }
                k = k + 1;
            }
            match tail {
                Some(t) => calls_user_fn(t),
                None => false,
            }
        },
        ExprKind::Index { array, index } => calls_user_fn(array) || calls_user_fn(index),
        ExprKind::Match { scrutinee, arms } => {
            if calls_user_fn(scrutinee) {
                return true;
            }
            let mut k: usize = 0;
            while k < arms.len()
                decreases arms.len() - k,
            {
                if calls_user_fn(&arms[k].body) {
                    return true;
                }
                k = k + 1;
            }
            false
        },
        ExprKind::StructLiteral { fields, base, .. } => {
            let mut k: usize = 0;
            while k < fields.len()
                decreases fields.len() - k,
            {
                if calls_user_fn(&fields[k].1) {
                    return true;
                }
                k = k + 1;
            }
            match base {
                Some(b) => calls_user_fn(b),
                None => false,
            }
        },
        ExprKind::FieldAccess { expr: inner, .. } => calls_user_fn(inner),
    }
}

#[verifier::loop_isolation(false)]
fn any_calls(v: &Vec<Expr>) -> (r: bool)
    decreases v,
{
    let mut k: usize = 0;
    while k < v.len()
        decreases v.len() - k,
    {
        if calls_user_fn(&v[k]) {
            return true;
        }
        k = k + 1;
    }
    false
}

fn stmt_calls_user_fn(stmt: &Stmt) -> (r: bool)
    decreases stmt,
{
    match &stmt.kind {
        StmtKind::Let { value, .. } => calls_user_fn(value),
        StmtKind::Assign { value, .. } => calls_user_fn(value),
        StmtKind::IndexAssign { index, value, .. } => calls_user_fn(index) || calls_user_fn(value),
        StmtKind::Expr(e) => calls_user_fn(e),
        StmtKind::Return(e) => match e {
            Some(e) => calls_user_fn(e),
            None => false,
        },
        StmtKind::Break => false,
    }
}

fn clone_names(v: &Vec<String>) -> (r: Vec<String>)
    ensures
        r@.len() == v@.len(),
        forall|i: int| 0 <= i < v@.len() ==> #[trigger] r@[i]@ == v@[i]@,
{
    let mut r: Vec<String> = Vec::new();
    let mut i: usize = 0;
    while i < v.len()
        invariant
            i <= v.len(),
            r@.len() == i,
            forall|j: int| 0 <= j < i ==> #[trigger] r@[j]@ == v@[j]@,
        decreases v.len() - i,
    {
        r.push(v[i].clone());
        i = i + 1;
    }
    r
}

fn clone_areas(v: &Vec<Option<usize>>) -> (r: Vec<Option<usize>>)
    ensures
        r@ == v@,
{
    let mut r: Vec<Option<usize>> = Vec::new();
    let mut i: usize = 0;
    while i < v.len()
        invariant
            i <= v.len(),
            r@ == v@.take(i as int),
        decreases v.len() - i,
    {
        r.push(v[i]);
        i = i + 1;
        proof {
            assert(r@ =~= v@.take(i as int));
        }
    }
    proof {
        assert(v@.take(i as int) =~= v@);
    }
    r
}

fn main_string() -> (r: String)
    ensures
        r@ == seq!['m', 'a', 'i', 'n'],
{
    let mut s = String::new();
    crate::text::push_char(&mut s, 'm');
    crate::text::push_char(&mut s, 'a');
    crate::text::push_char(&mut s, 'i');
    crate::text::push_char(&mut s, 'n');
    proof {
        assert(s@ =~= seq!['m', 'a', 'i', 'n']);
    }
    s
}

impl Default for CodeGen {
    fn default() -> Self {
        Self::new()
    }
}

} // verus!
