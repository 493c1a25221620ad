//! The three-stage resolver and the whole-program compiler.
//!
//! Resolution eliminates every symbolic reference in three passes run in a
//! fixed order: predefined symbols first, then jump labels, then user
//! variables. Each pass reads the previous pass's output and appends its
//! own to the next field; the compiler then encodes the fully resolved
//! lines one by one, stopping at the first failure.

use vstd::prelude::*;

use crate::instruction::{
    comp_of, dest_of, encode_model, jump_of, lemma_address_round_trip,
    lemma_compute_encoding_shape, parse_line, Instruction, InstructionView,
};
use crate::text::{
    dec_str, dec_val, decimal_string, is_digit_string, is_digits, str_eq, trim_leading,
    trim_trailing,
};

verus! {

/// An address instruction: `@` followed by a symbol or a numeral.
pub open spec fn is_address_line(l: Seq<char>) -> bool {
    l.len() > 0 && l[0] == '@'
}

/// The text after the leading `@`.
pub open spec fn operand(l: Seq<char>) -> Seq<char>
    recommends
        is_address_line(l),
{
    l.subrange(1, l.len() as int)
}

/// An address instruction carrying a literal address.
pub open spec fn address_line(n: nat) -> Seq<char> {
    seq!['@'] + dec_str(n)
}

/// A label declaration: a line beginning with `(`.
pub open spec fn is_label_line(l: Seq<char>) -> bool {
    l.len() > 0 && l[0] == '('
}

/// The declared name: the line with its leading `(`s and trailing `)`s
/// removed.
pub open spec fn label_name(l: Seq<char>) -> Seq<char> {
    trim_trailing(trim_leading(l, '('), ')')
}

/// The fixed architectural symbol table: stack and frame pointers, the
/// sixteen registers, and the two memory-mapped I/O bases.
pub open spec fn predefined(name: Seq<char>) -> Option<u16> {
    if name == "SP"@ {
        Option::Some(0u16)
    } else if name == "LCL"@ {
        Option::Some(1u16)
    } else if name == "ARG"@ {
        Option::Some(2u16)
    } else if name == "THIS"@ {
        Option::Some(3u16)
    } else if name == "THAT"@ {
        Option::Some(4u16)
    } else if name == "R0"@ {
        Option::Some(0u16)
    } else if name == "R1"@ {
        Option::Some(1u16)
    } else if name == "R2"@ {
        Option::Some(2u16)
    } else if name == "R3"@ {
        Option::Some(3u16)
    } else if name == "R4"@ {
        Option::Some(4u16)
    } else if name == "R5"@ {
        Option::Some(5u16)
    } else if name == "R6"@ {
        Option::Some(6u16)
    } else if name == "R7"@ {
        Option::Some(7u16)
    } else if name == "R8"@ {
        Option::Some(8u16)
    } else if name == "R9"@ {
        Option::Some(9u16)
    } else if name == "R10"@ {
        Option::Some(10u16)
    } else if name == "R11"@ {
        Option::Some(11u16)
    } else if name == "R12"@ {
        Option::Some(12u16)
    } else if name == "R13"@ {
        Option::Some(13u16)
    } else if name == "R14"@ {
        Option::Some(14u16)
    } else if name == "R15"@ {
        Option::Some(15u16)
    } else if name == "SCREEN"@ {
        Option::Some(16384u16)
    } else if name == "KBD"@ {
        Option::Some(24576u16)
    } else {
        Option::None
    }
}

/// Stage 1, one line: an address instruction whose operand is a
/// predefined symbol gets that symbol's fixed address; everything else
/// passes through unchanged.
pub open spec fn resolve_symbols_line(l: Seq<char>) -> Seq<char> {
    if is_address_line(l) {
        match predefined(operand(l)) {
            Option::Some(v) => address_line(v as nat),
            Option::None => l,
        }
    } else {
        l
    }
}

/// Stage 1 over a whole program; the line count never changes.
pub open spec fn symbols_replaced(lines: Seq<Seq<char>>) -> Seq<Seq<char>> {
    lines.map_values(|l: Seq<char>| resolve_symbols_line(l))
}

/// How many label declarations a program holds.
pub open spec fn label_count(lines: Seq<Seq<char>>) -> nat
    decreases lines.len(),
{
    if lines.len() == 0 {
        0
    } else {
        label_count(lines.drop_last()) + (if is_label_line(lines.last()) {
            1nat
        } else {
            0nat
        })
    }
}

/// The instruction index a declared label maps to: the index it will
/// occupy once every label-declaration line is dropped. A name declared
/// twice keeps its last declaration, as a table overwrite would.
pub open spec fn label_lookup(lines: Seq<Seq<char>>, name: Seq<char>) -> Option<nat>
    decreases lines.len(),
{
    if lines.len() == 0 {
        Option::None
    } else if is_label_line(lines.last()) && label_name(lines.last()) == name {
        Option::Some((lines.len() - 1 - label_count(lines.drop_last())) as nat)
    } else {
        label_lookup(lines.drop_last(), name)
    }
}

/// Stage 2, one kept line: an address instruction whose operand is a
/// declared label gets that label's instruction index; everything else
/// passes through unchanged.
pub open spec fn resolve_labels_line(all: Seq<Seq<char>>, l: Seq<char>) -> Seq<char> {
    if is_address_line(l) {
        match label_lookup(all, operand(l)) {
            Option::Some(v) => address_line(v),
            Option::None => l,
        }
    } else {
        l
    }
}

/// Stage 2 over a suffix of the program: label declarations are dropped,
/// and every other line is resolved against the whole program's label
/// table.
pub open spec fn labels_replaced_from(all: Seq<Seq<char>>, lines: Seq<Seq<char>>) -> Seq<
    Seq<char>,
>
    decreases lines.len(),
{
    if lines.len() == 0 {
        Seq::empty()
    } else if is_label_line(lines[0]) {
        labels_replaced_from(all, lines.drop_first())
    } else {
        seq![resolve_labels_line(all, lines[0])] + labels_replaced_from(all, lines.drop_first())
    }
}

/// Stage 2 over a whole program.
pub open spec fn labels_replaced(lines: Seq<Seq<char>>) -> Seq<Seq<char>> {
    labels_replaced_from(lines, lines)
}

/// The address a variable name was allocated, if any: first match wins.
pub open spec fn var_lookup(vars: Seq<(Seq<char>, nat)>, name: Seq<char>) -> Option<nat>
    decreases vars.len(),
{
    if vars.len() == 0 {
        Option::None
    } else if vars[0].0 == name {
        Option::Some(vars[0].1)
    } else {
        var_lookup(vars.drop_first(), name)
    }
}

/// The next free variable address: 16 for the first variable, one past
/// the previous allocation after that.
pub open spec fn next_var_address(vars: Seq<(Seq<char>, nat)>) -> nat {
    if vars.len() == 0 {
        16
    } else {
        vars.last().1 + 1
    }
}

/// Stage 3, one line: a non-address line or a numeric operand passes
/// through; any other operand is a variable, allocated on first sight and
/// reused after.
pub open spec fn variables_step(l: Seq<char>, vars: Seq<(Seq<char>, nat)>) -> (Seq<char>, Seq<
    (Seq<char>, nat),
>) {
    if !is_address_line(l) {
        (l, vars)
    } else if is_digits(operand(l)) {
        (l, vars)
    } else {
        match var_lookup(vars, operand(l)) {
            Option::Some(a) => (address_line(a), vars),
            Option::None => (
                address_line(next_var_address(vars)),
                vars.push((operand(l), next_var_address(vars))),
            ),
        }
    }
}

/// Stage 3 over a suffix of the program, with the variables allocated so
/// far.
pub open spec fn variables_replaced_from(
    lines: Seq<Seq<char>>,
    vars: Seq<(Seq<char>, nat)>,
) -> Seq<Seq<char>>
    decreases lines.len(),
{
    if lines.len() == 0 {
        Seq::empty()
    } else {
        seq![variables_step(lines[0], vars).0] + variables_replaced_from(
            lines.drop_first(),
            variables_step(lines[0], vars).1,
        )
    }
}

/// The variable table after a suffix of the program has been scanned.
pub open spec fn variables_after(lines: Seq<Seq<char>>, vars: Seq<(Seq<char>, nat)>) -> Seq<
    (Seq<char>, nat),
>
    decreases lines.len(),
{
    if lines.len() == 0 {
        vars
    } else {
        variables_after(lines.drop_first(), variables_step(lines[0], vars).1)
    }
}

/// Stage 3 over a whole program, starting with no variables allocated.
pub open spec fn variables_replaced(lines: Seq<Seq<char>>) -> Seq<Seq<char>> {
    variables_replaced_from(lines, Seq::empty())
}

/// What one resolved line compiles to: the machine word, or the error
/// text of the first failure, parse failures first.
pub open spec fn encode_line(l: Seq<char>) -> Result<Seq<char>, Seq<char>> {
    match parse_line(l) {
        Option::None => Result::Err("Could not parse "@ + l),
        Option::Some(m) => encode_model(m),
    }
}

/// What a resolved program compiles to: every machine word in order, or
/// the first failing line's error with all output discarded.
pub open spec fn compile_lines(lines: Seq<Seq<char>>) -> Result<Seq<Seq<char>>, Seq<char>>
    decreases lines.len(),
{
    if lines.len() == 0 {
        Result::Ok(Seq::empty())
    } else {
        match encode_line(lines[0]) {
            Result::Err(e) => Result::Err(e),
            Result::Ok(h) => match compile_lines(lines.drop_first()) {
                Result::Err(e) => Result::Err(e),
                Result::Ok(rest) => Result::Ok(seq![h] + rest),
            },
        }
    }
}

/// The mathematical content of a compilation result.
pub open spec fn compile_result_view(r: &Result<Vec<String>, String>) -> Result<
    Seq<Seq<char>>,
    Seq<char>,
> {
    match r {
        Result::Ok(v) => Result::Ok(v.deep_view()),
        Result::Err(e) => Result::Err(e@),
    }
}

/// Lift a scan-table result to the index domain of the label table.
spec fn lift_index(o: Option<usize>) -> Option<nat> {
    match o {
        Option::None => Option::None,
        Option::Some(v) => Option::Some(v as nat),
    }
}

/// What the first label scan has built so far: name to index, the last
/// declaration of a name winning, as a table overwrite would.
spec fn table_lookup(t: Seq<(Seq<char>, usize)>, name: Seq<char>) -> Option<usize>
    decreases t.len(),
{
    if t.len() == 0 {
        Option::None
    } else if t.last().0 == name {
        Option::Some(t.last().1)
    } else {
        table_lookup(t.drop_last(), name)
    }
}

/// The variable table as the specification sees it.
spec fn vars_view(t: Seq<(Seq<char>, u16)>) -> Seq<(Seq<char>, nat)> {
    t.map_values(|p: (Seq<char>, u16)| (p.0, p.1 as nat))
}

pub proof fn lemma_label_count_le(lines: Seq<Seq<char>>)
    ensures
        label_count(lines) <= lines.len(),
    decreases lines.len(),
{
    if lines.len() > 0 {
        lemma_label_count_le(lines.drop_last());
    }
}

pub proof fn lemma_label_count_first(lines: Seq<Seq<char>>)
    requires
        lines.len() > 0,
    ensures
        label_count(lines) == (if is_label_line(lines[0]) {
            1nat
        } else {
            0nat
        }) + label_count(lines.drop_first()),
    decreases lines.len(),
{
    if lines.len() == 1 {
        assert(lines.drop_last() =~= Seq::<Seq<char>>::empty());
        assert(lines.drop_first() =~= Seq::<Seq<char>>::empty());
        assert(lines.last() == lines[0]);
    } else {
        lemma_label_count_first(lines.drop_last());
        assert(lines.drop_last().drop_first() =~= lines.drop_first().drop_last());
        assert(lines.drop_first().last() == lines.last());
        assert(lines.drop_last()[0] == lines[0]);
    }
}

/// Stage 2 keeps exactly the non-label lines: its output length is the
/// input length less the number of label declarations.
pub proof fn lemma_labels_replaced_from_len(all: Seq<Seq<char>>, lines: Seq<Seq<char>>)
    ensures
        label_count(lines) <= lines.len(),
        labels_replaced_from(all, lines).len() == lines.len() - label_count(lines),
    decreases lines.len(),
{
    lemma_label_count_le(lines);
    if lines.len() > 0 {
        lemma_labels_replaced_from_len(all, lines.drop_first());
        lemma_label_count_first(lines);
    }
}

/// Law: after predefined-symbol substitution alone, an address
/// instruction whose operand is a predefined symbol carries that symbol's
/// fixed address, and every other line — non-address, or an operand that
/// is no predefined symbol — is unchanged; the line count is kept.
pub proof fn lemma_symbol_substitution(lines: Seq<Seq<char>>, i: int)
    requires
        0 <= i < lines.len(),
    ensures
        symbols_replaced(lines).len() == lines.len(),
        is_address_line(lines[i]) && predefined(operand(lines[i])) is Some
            ==> symbols_replaced(lines)[i] == address_line(
            predefined(operand(lines[i])).unwrap() as nat,
        ),
        !(is_address_line(lines[i]) && predefined(operand(lines[i])) is Some)
            ==> symbols_replaced(lines)[i] == lines[i],
{
    assert(symbols_replaced(lines)[i] == resolve_symbols_line(lines[i]));
}

proof fn lemma_labels_replaced_from_index(all: Seq<Seq<char>>, lines: Seq<Seq<char>>, i: int)
    requires
        0 <= i < lines.len(),
        !is_label_line(lines[i]),
    ensures
        label_count(lines.take(i)) <= i,
        0 <= i - label_count(lines.take(i)) < labels_replaced_from(all, lines).len(),
        labels_replaced_from(all, lines)[i - label_count(lines.take(i))] == resolve_labels_line(
            all,
            lines[i],
        ),
    decreases lines.len(),
{
    lemma_labels_replaced_from_len(all, lines);
    lemma_label_count_le(lines.take(i));
    if i == 0 {
        assert(lines.take(0) =~= Seq::<Seq<char>>::empty());
    } else {
        lemma_labels_replaced_from_index(all, lines.drop_first(), i - 1);
        assert(lines.drop_first()[i - 1] == lines[i]);
        assert(lines.drop_first().take(i - 1) =~= lines.take(i).drop_first());
        lemma_label_count_first(lines.take(i));
        assert(lines.take(i)[0] == lines[0]);
        let c = label_count(lines.take(i));
        if is_label_line(lines[0]) {
            assert(c == 1 + label_count(lines.drop_first().take(i - 1)));
            assert(labels_replaced_from(all, lines) == labels_replaced_from(
                all,
                lines.drop_first(),
            ));
        } else {
            assert(c == label_count(lines.drop_first().take(i - 1)));
            assert(labels_replaced_from(all, lines) == seq![
                resolve_labels_line(all, lines[0]),
            ] + labels_replaced_from(all, lines.drop_first()));
        }
    }
}

proof fn lemma_labels_replaced_from_no_labels(all: Seq<Seq<char>>, lines: Seq<Seq<char>>)
    ensures
        forall|k: int|
            0 <= k < labels_replaced_from(all, lines).len() ==> !is_label_line(
                #[trigger] labels_replaced_from(all, lines)[k],
            ),
    decreases lines.len(),
{
    if lines.len() > 0 {
        lemma_labels_replaced_from_no_labels(all, lines.drop_first());
        let rest = labels_replaced_from(all, lines.drop_first());
        if !is_label_line(lines[0]) {
            let x = resolve_labels_line(all, lines[0]);
            assert(!is_label_line(x)) by {
                if is_address_line(lines[0]) && label_lookup(all, operand(lines[0])) is Some {
                    let v = label_lookup(all, operand(lines[0])).unwrap();
                    assert(address_line(v)[0] == '@');
                }
            }
            assert forall|k: int|
                0 <= k < labels_replaced_from(all, lines).len() implies !is_label_line(
                #[trigger] labels_replaced_from(all, lines)[k],
            ) by {
                if k == 0 {
                    assert(labels_replaced_from(all, lines)[0] == x);
                } else {
                    assert(labels_replaced_from(all, lines)[k] == rest[k - 1]);
                }
            }
        } else {
            assert forall|k: int|
                0 <= k < labels_replaced_from(all, lines).len() implies !is_label_line(
                #[trigger] labels_replaced_from(all, lines)[k],
            ) by {
                assert(labels_replaced_from(all, lines)[k] == rest[k]);
            }
        }
    }
}

/// Law: after label resolution, the output is the input less its label
/// declarations — the length drops by exactly the number of declarations
/// and no label declaration remains — and a kept line at input index `i`
/// stands at output index `i` less the declarations before it, with a
/// declared-label operand replaced by that label's post-strip instruction
/// index and every other line unchanged.
pub proof fn lemma_label_resolution(lines: Seq<Seq<char>>, i: int)
    requires
        0 <= i < lines.len(),
        !is_label_line(lines[i]),
    ensures
        labels_replaced(lines).len() == lines.len() - label_count(lines),
        forall|k: int|
            0 <= k < labels_replaced(lines).len() ==> !is_label_line(
                #[trigger] labels_replaced(lines)[k],
            ),
        0 <= i - label_count(lines.take(i)) < labels_replaced(lines).len(),
        is_address_line(lines[i]) && label_lookup(lines, operand(lines[i])) is Some
            ==> labels_replaced(lines)[i - label_count(lines.take(i))] == address_line(
            label_lookup(lines, operand(lines[i])).unwrap(),
        ),
        !(is_address_line(lines[i]) && label_lookup(lines, operand(lines[i])) is Some)
            ==> labels_replaced(lines)[i - label_count(lines.take(i))] == lines[i],
{
    lemma_labels_replaced_from_len(lines, lines);
    lemma_labels_replaced_from_no_labels(lines, lines);
    lemma_labels_replaced_from_index(lines, lines, i);
}

proof fn lemma_var_lookup_push(vars: Seq<(Seq<char>, nat)>, p: (Seq<char>, nat), name: Seq<char>)
    ensures
        var_lookup(vars, name) is Some ==> var_lookup(vars.push(p), name) == var_lookup(
            vars,
            name,
        ),
    decreases vars.len(),
{
    if vars.len() > 0 {
        assert(vars.push(p)[0] == vars[0]);
        if vars[0].0 != name {
            lemma_var_lookup_push(vars.drop_first(), p, name);
            assert(vars.push(p).drop_first() =~= vars.drop_first().push(p));
        }
    }
}

/// Law: user variables are allocated in first-seen order starting at
/// address 16 — the table's k-th entry holds address 16 + k — the table
/// only ever grows at its end, and a name once allocated keeps its
/// address for the rest of the program.
pub proof fn lemma_variable_allocation(lines: Seq<Seq<char>>, vars: Seq<(Seq<char>, nat)>)
    requires
        forall|k: int| 0 <= k < vars.len() ==> (#[trigger] vars[k]).1 == 16 + k,
    ensures
        forall|k: int|
            0 <= k < variables_after(lines, vars).len() ==> (#[trigger] variables_after(
                lines,
                vars,
            )[k]).1 == 16 + k,
        vars.is_prefix_of(variables_after(lines, vars)),
        forall|name: Seq<char>|
            #[trigger] var_lookup(vars, name) is Some ==> var_lookup(
                variables_after(lines, vars),
                name,
            ) == var_lookup(vars, name),
    decreases lines.len(),
{
    if lines.len() == 0 {
        assert(vars =~= variables_after(lines, vars).subrange(0, vars.len() as int));
    } else {
        let v2 = variables_step(lines[0], vars).1;
        assert(forall|k: int| 0 <= k < v2.len() ==> (#[trigger] v2[k]).1 == 16 + k) by {
            if v2 != vars {
                assert(v2 == vars.push((operand(lines[0]), next_var_address(vars))));
                if vars.len() > 0 {
                    assert(vars.last() == vars[vars.len() - 1]);
                }
                assert(next_var_address(vars) == 16 + vars.len());
                assert(forall|k: int| 0 <= k < vars.len() ==> v2[k] == vars[k]);
            }
        }
        lemma_variable_allocation(lines.drop_first(), v2);
        assert(variables_after(lines, vars) == variables_after(lines.drop_first(), v2));
        assert(vars.is_prefix_of(v2)) by {
            assert(vars =~= v2.subrange(0, vars.len() as int));
        }
        assert(vars.is_prefix_of(variables_after(lines, vars))) by {
            let after = variables_after(lines, vars);
            assert(v2 =~= after.subrange(0, v2.len() as int));
            assert(forall|k: int| 0 <= k < vars.len() ==> vars[k] == after[k]);
            assert(vars =~= after.subrange(0, vars.len() as int));
        }
        assert forall|name: Seq<char>| #[trigger] var_lookup(vars, name) is Some implies
            var_lookup(variables_after(lines, vars), name) == var_lookup(vars, name) by {
            if v2 != vars {
                lemma_var_lookup_push(vars, (operand(lines[0]), next_var_address(vars)), name);
            }
        }
    }
}

proof fn lemma_word_length(l: Seq<char>)
    ensures
        match encode_line(l) {
            Result::Ok(w) => w.len() == 16,
            Result::Err(_) => true,
        },
{
    match parse_line(l) {
        Option::None => {},
        Option::Some(m) => match m {
            InstructionView::Address(s) => {
                if is_digits(s) && dec_val(s) <= 32767 {
                    lemma_address_round_trip(dec_val(s));
                }
            },
            InstructionView::Compute { dest, comp, jump } => {
                if comp_of(comp) is Some && !(dest is Some && dest_of(dest.unwrap()) is None)
                    && !(jump is Some && jump_of(jump.unwrap()) is None) {
                    lemma_compute_encoding_shape(
                        match dest {
                            Option::Some(s) => Option::Some(dest_of(s).unwrap()),
                            Option::None => Option::None,
                        },
                        comp_of(comp).unwrap(),
                        match jump {
                            Option::Some(s) => Option::Some(jump_of(s).unwrap()),
                            Option::None => Option::None,
                        },
                    );
                }
            },
        },
    }
}

/// Law: a successful compilation yields exactly one word per resolved
/// instruction, in order, and every word is sixteen characters of the
/// persisted format.
pub proof fn lemma_compiled_words(lines: Seq<Seq<char>>)
    ensures
        match compile_lines(lines) {
            Result::Ok(ws) => ws.len() == lines.len() && forall|k: int|
                0 <= k < ws.len() ==> (#[trigger] ws[k]).len() == 16,
            Result::Err(_) => true,
        },
    decreases lines.len(),
{
    if lines.len() > 0 {
        lemma_compiled_words(lines.drop_first());
        lemma_word_length(lines[0]);
        if encode_line(lines[0]) is Ok && compile_lines(lines.drop_first()) is Ok {
            let h = encode_line(lines[0])->Ok_0;
            let rest = compile_lines(lines.drop_first())->Ok_0;
            let ws = compile_lines(lines)->Ok_0;
            assert forall|k: int| 0 <= k < ws.len() implies (#[trigger] ws[k]).len() == 16 by {
                if k == 0 {
                    assert(ws[0] == h);
                } else {
                    assert(ws[k] == rest[k - 1]);
                }
            }
        }
    }
}

/// A line allocates at most one variable, so a program of at most 65520
/// lines always satisfies the allocation bound that `replace_variables`
/// and `pre_process` require.
pub proof fn lemma_variable_count_bounded(lines: Seq<Seq<char>>, vars: Seq<(Seq<char>, nat)>)
    ensures
        variables_after(lines, vars).len() <= vars.len() + lines.len(),
    decreases lines.len(),
{
    if lines.len() > 0 {
        let v2 = variables_step(lines[0], vars).1;
        assert(v2.len() <= vars.len() + 1);
        lemma_variable_count_bounded(lines.drop_first(), v2);
    }
}

/// After variable allocation, every address instruction carries a purely
/// numeric operand: by the time encoding begins, no symbol, label or
/// variable name is left in the program.
pub proof fn lemma_resolver_output_numeric(lines: Seq<Seq<char>>, vars: Seq<(Seq<char>, nat)>)
    ensures
        forall|k: int|
            0 <= k < variables_replaced_from(lines, vars).len() && is_address_line(
                #[trigger] variables_replaced_from(lines, vars)[k],
            ) ==> is_digits(operand(variables_replaced_from(lines, vars)[k])),
    decreases lines.len(),
{
    if lines.len() > 0 {
        let (x, v2) = variables_step(lines[0], vars);
        lemma_resolver_output_numeric(lines.drop_first(), v2);
        let rest = variables_replaced_from(lines.drop_first(), v2);
        assert(is_address_line(x) ==> is_digits(operand(x))) by {
            if is_address_line(lines[0]) && !is_digits(operand(lines[0])) {
                let a = match var_lookup(vars, operand(lines[0])) {
                    Option::Some(a) => a,
                    Option::None => next_var_address(vars),
                };
                assert(x == address_line(a));
                crate::text::lemma_dec_str_digits(a);
                assert(operand(address_line(a)) =~= dec_str(a));
            }
        }
        assert forall|k: int|
            0 <= k < variables_replaced_from(lines, vars).len() && is_address_line(
                #[trigger] variables_replaced_from(lines, vars)[k],
            ) implies is_digits(operand(variables_replaced_from(lines, vars)[k])) by {
            if k == 0 {
                assert(variables_replaced_from(lines, vars)[0] == x);
            } else {
                assert(variables_replaced_from(lines, vars)[k] == rest[k - 1]);
            }
        }
    }
}

/// A whole-program assembler session: the raw source and the output of
/// each resolver stage, each stage appending to its own field.
pub struct Assembler {
    pub source: Vec<String>,
    pub without_symbols: Vec<String>,
    pub without_labels: Vec<String>,
    pub without_variables: Vec<String>,
}

/// The predefined address of an architectural symbol, if any.
fn predefined_address(name: &str) -> (r: Option<u16>)
    ensures
        r == predefined(name@),
{
    if str_eq(name, "SP") {
        Some(0)
    } else if str_eq(name, "LCL") {
        Some(1)
    } else if str_eq(name, "ARG") {
        Some(2)
    } else if str_eq(name, "THIS") {
        Some(3)
    } else if str_eq(name, "THAT") {
        Some(4)
    } else if str_eq(name, "R0") {
        Some(0)
    } else if str_eq(name, "R1") {
        Some(1)
    } else if str_eq(name, "R2") {
        Some(2)
    } else if str_eq(name, "R3") {
        Some(3)
    } else if str_eq(name, "R4") {
        Some(4)
    } else if str_eq(name, "R5") {
        Some(5)
    } else if str_eq(name, "R6") {
        Some(6)
    } else if str_eq(name, "R7") {
        Some(7)
    } else if str_eq(name, "R8") {
        Some(8)
    } else if str_eq(name, "R9") {
        Some(9)
    } else if str_eq(name, "R10") {
        Some(10)
    } else if str_eq(name, "R11") {
        Some(11)
    } else if str_eq(name, "R12") {
        Some(12)
    } else if str_eq(name, "R13") {
        Some(13)
    } else if str_eq(name, "R14") {
        Some(14)
    } else if str_eq(name, "R15") {
        Some(15)
    } else if str_eq(name, "SCREEN") {
        Some(16384)
    } else if str_eq(name, "KBD") {
        Some(24576)
    } else {
        None
    }
}

/// Render `@` followed by a decimal address.
fn address_string(n: u64) -> (r: String)
    ensures
        r@ == address_line(n as nat),
{
    let mut r = String::from_str("@");
    r.append(decimal_string(n).as_str());
    proof {
        reveal_strlit("@");
        assert(r@ =~= address_line(n as nat));
    }
    r
}

/// The declared name of a label line: strip leading `(`s and trailing
/// `)`s.
fn label_name_of(s: &str) -> (r: String)
    ensures
        r@ == label_name(s@),
{
    let len: usize = s.unicode_len();
    let mut start: usize = 0;
    proof {
        assert(s@.skip(0) =~= s@);
    }
    while start < len && s.get_char(start) == '('
        invariant
            start <= len,
            len == s@.len(),
            trim_leading(s@, '(') == trim_leading(s@.skip(start as int), '('),
        decreases len - start,
    {
        proof {
            assert(s@.skip(start as int).drop_first() =~= s@.skip(start as int + 1));
        }
        start = start + 1;
    }
    proof {
        if start == len {
            assert(s@.skip(start as int) =~= Seq::<char>::empty());
        }
        assert(trim_leading(s@, '(') == s@.skip(start as int));
    }
    let ghost u: Seq<char> = s@.skip(start as int);
    let mut end: usize = len;
    proof {
        assert(u.take((end - start) as int) =~= u);
    }
    while end > start && s.get_char(end - 1) == ')'
        invariant
            start <= end <= len,
            len == s@.len(),
            u == s@.skip(start as int),
            trim_trailing(u, ')') == trim_trailing(u.take((end - start) as int), ')'),
        decreases end,
    {
        proof {
            assert(u.take((end - start) as int).last() == s@[end - 1]);
            assert(u.take((end - start) as int).drop_last() =~= u.take((end - 1 - start) as int));
        }
        end = end - 1;
    }
    proof {
        if end > start {
            assert(u.take((end - start) as int).last() == s@[end - 1]);
        }
        assert(trim_trailing(u, ')') == u.take((end - start) as int));
    }
    let r = String::from_str(s.substring_char(start, end));
    proof {
        assert(r@ =~= label_name(s@));
    }
    r
}

/// The index a name maps to in the scan table, if any.
fn table_get(t: &Vec<(String, usize)>, name: &str) -> (r: Option<usize>)
    ensures
        match r {
            Option::Some(v) => table_lookup(t.deep_view(), name@) == Option::Some(v),
            Option::None => table_lookup(t.deep_view(), name@) is None,
        },
{
    let mut k: usize = t.len();
    proof {
        assert(t.deep_view().take(k as int) =~= t.deep_view());
    }
    while k > 0
        invariant
            k <= t.len(),
            t.deep_view().len() == t.len(),
            table_lookup(t.deep_view(), name@) == table_lookup(
                t.deep_view().take(k as int),
                name@,
            ),
        decreases k,
    {
        proof {
            assert(t.deep_view()[k - 1] == (t@[k - 1].0@, t@[k - 1].1));
            assert(t.deep_view().take(k as int).last() == t.deep_view()[k - 1]);
            assert(t.deep_view().take(k as int).drop_last() =~= t.deep_view().take(k - 1));
        }
        let entry = &t[k - 1];
        if str_eq(entry.0.as_str(), name) {
            return Some(entry.1);
        }
        k = k - 1;
    }
    proof {
        assert(t.deep_view().take(0) =~= Seq::<(Seq<char>, usize)>::empty());
    }
    None
}

/// The address a name was allocated so far, if any.
fn var_get(vars: &Vec<(String, u16)>, name: &str) -> (r: Option<u16>)
    ensures
        match r {
            Option::Some(v) => var_lookup(vars_view(vars.deep_view()), name@) == Option::Some(
                v as nat,
            ),
            Option::None => var_lookup(vars_view(vars.deep_view()), name@) is None,
        },
{
    let ghost vv = vars_view(vars.deep_view());
    let mut k: usize = 0;
    proof {
        assert(vv.skip(0) =~= vv);
    }
    while k < vars.len()
        invariant
            k <= vars.len(),
            vv == vars_view(vars.deep_view()),
            vv.len() == vars.len(),
            var_lookup(vv, name@) == var_lookup(vv.skip(k as int), name@),
        decreases vars.len() - k,
    {
        proof {
            assert(vars.deep_view()[k as int] == (vars@[k as int].0@, vars@[k as int].1));
            assert(vv[k as int] == (vars@[k as int].0@, vars@[k as int].1 as nat));
            assert(vv.skip(k as int)[0] == vv[k as int]);
            assert(vv.skip(k as int).drop_first() =~= vv.skip(k as int + 1));
        }
        let entry = &vars[k];
        if str_eq(entry.0.as_str(), name) {
            return Some(entry.1);
        }
        k = k + 1;
    }
    None
}

impl Assembler {
    /// A fresh session over the given cleaned source lines; no stage has
    /// run yet.
    pub fn new(source: Vec<String>) -> (r: Assembler)
        ensures
            r.source == source,
            r.without_symbols@ == Seq::<String>::empty(),
            r.without_labels@ == Seq::<String>::empty(),
            r.without_variables@ == Seq::<String>::empty(),
    {
        Assembler {
            source,
            without_symbols: Vec::new(),
            without_labels: Vec::new(),
            without_variables: Vec::new(),
        }
    }

    /// Stage 1: replace every predefined-symbol operand with its fixed
    /// address, line for line.
    pub fn replace_symbols(&mut self)
        ensures
            final(self).source == old(self).source,
            final(self).without_labels == old(self).without_labels,
            final(self).without_variables == old(self).without_variables,
            final(self).without_symbols.deep_view() == old(
                self,
            ).without_symbols.deep_view() + symbols_replaced(old(self).source.deep_view()),
    {
        let ghost lines: Seq<Seq<char>> = self.source.deep_view();
        let ghost out0: Seq<Seq<char>> = self.without_symbols.deep_view();
        let n = self.source.len();
        let mut i: usize = 0;
        while i < n
            invariant
                i <= n,
                n == self.source.len(),
                self.source.deep_view() == lines,
                self.source == old(self).source,
                self.without_labels == old(self).without_labels,
                self.without_variables == old(self).without_variables,
                self.without_symbols.deep_view().len() == out0.len() + i,
                forall|k: int|
                    0 <= k < out0.len() ==> self.without_symbols.deep_view()[k] == out0[k],
                forall|k: int|
                    0 <= k < i ==> self.without_symbols.deep_view()[out0.len() + k]
                        == resolve_symbols_line(lines[k]),
            decreases n - i,
        {
            let op = self.source[i].clone();
            let oplen = op.as_str().unicode_len();
            if oplen > 0 && op.as_str().get_char(0) == '@' {
                let sym = op.as_str().substring_char(1, oplen);
                match predefined_address(sym) {
                    Some(v) => {
                        self.without_symbols.push(address_string(v as u64));
                    },
                    None => {
                        self.without_symbols.push(op);
                    },
                }
            } else {
                self.without_symbols.push(op);
            }
            i = i + 1;
        }
        proof {
            assert(self.without_symbols.deep_view() =~= out0 + symbols_replaced(lines));
        }
    }

    /// Stage 2: build the label table in one scan, then drop every label
    /// declaration and replace every declared-label operand with its
    /// instruction index.
    pub fn replace_labels(&mut self)
        ensures
            final(self).source == old(self).source,
            final(self).without_symbols == old(self).without_symbols,
            final(self).without_variables == old(self).without_variables,
            final(self).without_labels.deep_view() == old(self).without_labels.deep_view()
                + labels_replaced(old(self).without_symbols.deep_view()),
    {
        let ghost lines: Seq<Seq<char>> = self.without_symbols.deep_view();
        let ghost out0: Seq<Seq<char>> = self.without_labels.deep_view();
        let n: usize = self.without_symbols.len();

        let mut table: Vec<(String, usize)> = Vec::new();
        let mut labels_count: usize = 0;
        let mut i: usize = 0;
        proof {
            assert(lines.take(0) =~= Seq::<Seq<char>>::empty());
        }
        while i < n
            invariant
                i <= n,
                n == self.without_symbols.len(),
                self.without_symbols.deep_view() == lines,
                labels_count == label_count(lines.take(i as int)),
                labels_count <= i,
                forall|name: Seq<char>|
                    lift_index(table_lookup(table.deep_view(), name)) == label_lookup(
                        lines.take(i as int),
                        name,
                    ),
            decreases n - i,
        {
            proof {
                assert(lines.take(i as int + 1).drop_last() =~= lines.take(i as int));
                assert(lines.take(i as int + 1).last() == lines[i as int]);
                assert(lines[i as int] == self.without_symbols@[i as int]@);
            }
            let op = &self.without_symbols[i];
            let oplen: usize = op.as_str().unicode_len();
            if oplen > 0 && op.as_str().get_char(0) == '(' {
                let nm = label_name_of(op.as_str());
                let idx: usize = i - labels_count;
                let ghost tdv = table.deep_view();
                let ghost nmv = nm@;
                table.push((nm, idx));
                proof {
                    assert(table.deep_view() =~= tdv.push((nmv, idx)));
                    assert forall|name: Seq<char>|
                        lift_index(table_lookup(table.deep_view(), name)) == label_lookup(
                            lines.take(i as int + 1),
                            name,
                        ) by {
                        assert(table.deep_view().last() == (nmv, idx));
                        assert(table.deep_view().drop_last() =~= tdv);
                        assert(is_label_line(lines[i as int]));
                        assert(label_name(lines[i as int]) == nmv);
                        if name == nmv {
                            assert(table_lookup(table.deep_view(), name) == Option::Some(idx));
                            assert(label_lookup(lines.take(i as int + 1), name)
                                == Option::Some(
                                (i - label_count(lines.take(i as int))) as nat,
                            ));
                        } else {
                            assert(table_lookup(table.deep_view(), name) == table_lookup(
                                tdv,
                                name,
                            ));
                            assert(label_lookup(lines.take(i as int + 1), name) == label_lookup(
                                lines.take(i as int),
                                name,
                            ));
                        }
                    }
                }
                labels_count = labels_count + 1;
            } else {
                proof {
                    assert(!is_label_line(lines[i as int]));
                    assert forall|name: Seq<char>|
                        lift_index(table_lookup(table.deep_view(), name)) == label_lookup(
                            lines.take(i as int + 1),
                            name,
                        ) by {
                        assert(label_lookup(lines.take(i as int + 1), name) == label_lookup(
                            lines.take(i as int),
                            name,
                        ));
                    }
                }
            }
            i = i + 1;
        }
        proof {
            assert(lines.take(n as int) =~= lines);
            assert(lines.skip(0) =~= lines);
        }

        let mut j: usize = 0;
        while j < n
            invariant
                j <= n,
                n == self.without_symbols.len(),
                self.without_symbols.deep_view() == lines,
                self.source == old(self).source,
                self.without_symbols == old(self).without_symbols,
                self.without_variables == old(self).without_variables,
                forall|name: Seq<char>|
                    lift_index(table_lookup(table.deep_view(), name)) == label_lookup(
                        lines,
                        name,
                    ),
                self.without_labels.deep_view() + labels_replaced_from(
                    lines,
                    lines.skip(j as int),
                ) == out0 + labels_replaced(lines),
            decreases n - j,
        {
            let ghost prev = self.without_labels.deep_view();
            proof {
                assert(lines.skip(j as int)[0] == lines[j as int]);
                assert(lines.skip(j as int).drop_first() =~= lines.skip(j as int + 1));
                assert(lines[j as int] == self.without_symbols@[j as int]@);
            }
            let op = self.without_symbols[j].clone();
            let oplen: usize = op.as_str().unicode_len();
            if oplen > 0 && op.as_str().get_char(0) == '(' {
                proof {
                    assert(is_label_line(lines[j as int]));
                }
            } else if oplen > 0 && op.as_str().get_char(0) == '@' {
                let sym = op.as_str().substring_char(1, oplen);
                proof {
                    assert(sym@ == operand(lines[j as int]));
                }
                match table_get(&table, sym) {
                    Some(v) => {
                        let ghost x = address_line(v as nat);
                        self.without_labels.push(address_string(v as u64));
                        proof {
                            assert(lift_index(table_lookup(table.deep_view(), sym@))
                                == Option::Some(v as nat));
                            assert(resolve_labels_line(lines, lines[j as int]) == x);
                            assert(self.without_labels.deep_view() =~= prev.push(x));
                            assert(prev.push(x) + labels_replaced_from(
                                lines,
                                lines.skip(j as int + 1),
                            ) =~= prev + (seq![x] + labels_replaced_from(
                                lines,
                                lines.skip(j as int + 1),
                            )));
                        }
                    },
                    None => {
                        let ghost x = lines[j as int];
                        self.without_labels.push(op);
                        proof {
                            assert(resolve_labels_line(lines, lines[j as int]) == x);
                            assert(self.without_labels.deep_view() =~= prev.push(x));
                            assert(prev.push(x) + labels_replaced_from(
                                lines,
                                lines.skip(j as int + 1),
                            ) =~= prev + (seq![x] + labels_replaced_from(
                                lines,
                                lines.skip(j as int + 1),
                            )));
                        }
                    },
                }
            } else {
                let ghost x = lines[j as int];
                self.without_labels.push(op);
                proof {
                    assert(!is_label_line(lines[j as int]));
                    assert(!is_address_line(lines[j as int]));
                    assert(resolve_labels_line(lines, lines[j as int]) == x);
                    assert(self.without_labels.deep_view() =~= prev.push(x));
                    assert(prev.push(x) + labels_replaced_from(lines, lines.skip(j as int + 1))
                        =~= prev + (seq![x] + labels_replaced_from(
                        lines,
                        lines.skip(j as int + 1),
                    )));
                }
            }
            j = j + 1;
        }
        proof {
            assert(lines.skip(n as int) =~= Seq::<Seq<char>>::empty());
            assert(self.without_labels.deep_view() + Seq::<Seq<char>>::empty()
                =~= self.without_labels.deep_view());
            assert(self.without_labels.deep_view() =~= out0 + labels_replaced(lines));
        }
    }

    /// Stage 3: pass numeric operands through; allocate every other
    /// address operand as a variable, 16 for the first and one past the
    /// previous allocation after that, reusing the address of a name seen
    /// before.
    pub fn replace_variables(&mut self)
        requires
            variables_after(old(self).without_labels.deep_view(), Seq::empty()).len() <= 65520,
        ensures
            final(self).source == old(self).source,
            final(self).without_symbols == old(self).without_symbols,
            final(self).without_labels == old(self).without_labels,
            final(self).without_variables.deep_view() == old(self).without_variables.deep_view()
                + variables_replaced(old(self).without_labels.deep_view()),
    {
        let ghost lines: Seq<Seq<char>> = self.without_labels.deep_view();
        let ghost out0: Seq<Seq<char>> = self.without_variables.deep_view();
        let n: usize = self.without_labels.len();
        let mut vars: Vec<(String, u16)> = Vec::new();
        let mut i: usize = 0;
        proof {
            assert(lines.skip(0) =~= lines);
            assert(vars_view(vars.deep_view()) =~= Seq::<(Seq<char>, nat)>::empty());
            assert(variables_after(lines.skip(0), vars_view(vars.deep_view()))
                == variables_after(lines, Seq::empty()));
        }
        while i < n
            invariant
                i <= n,
                n == self.without_labels.len(),
                self.without_labels.deep_view() == lines,
                self.source == old(self).source,
                self.without_symbols == old(self).without_symbols,
                self.without_labels == old(self).without_labels,
                variables_after(lines.skip(i as int), vars_view(vars.deep_view()))
                    == variables_after(lines, Seq::empty()),
                variables_after(lines, Seq::empty()).len() <= 65520,
                forall|k: int|
                    0 <= k < vars@.len() ==> #[trigger] vars_view(vars.deep_view())[k].1 == 16
                        + k,
                self.without_variables.deep_view() + variables_replaced_from(
                    lines.skip(i as int),
                    vars_view(vars.deep_view()),
                ) == out0 + variables_replaced(lines),
            decreases n - i,
        {
            let ghost vv = vars_view(vars.deep_view());
            let ghost prev = self.without_variables.deep_view();
            proof {
                assert(lines.skip(i as int)[0] == lines[i as int]);
                assert(lines.skip(i as int).drop_first() =~= lines.skip(i as int + 1));
                assert(lines[i as int] == self.without_labels@[i as int]@);
            }
            let op = self.without_labels[i].clone();
            let oplen: usize = op.as_str().unicode_len();
            if oplen > 0 && op.as_str().get_char(0) == '@' {
                let sym = op.as_str().substring_char(1, oplen);
                proof {
                    assert(sym@ == operand(lines[i as int]));
                }
                if is_digit_string(sym) {
                    let ghost x = lines[i as int];
                    self.without_variables.push(op);
                    proof {
                        assert(variables_step(lines[i as int], vv) == (x, vv));
                        assert(variables_after(lines.skip(i as int), vv) == variables_after(
                            lines.skip(i as int + 1),
                            vv,
                        ));
                        assert(self.without_variables.deep_view() =~= prev.push(x));
                        assert(prev.push(x) + variables_replaced_from(
                            lines.skip(i as int + 1),
                            vv,
                        ) =~= prev + (seq![x] + variables_replaced_from(
                            lines.skip(i as int + 1),
                            vv,
                        )));
                    }
                } else {
                    match var_get(&vars, sym) {
                        Some(a) => {
                            let ghost x = address_line(a as nat);
                            self.without_variables.push(address_string(a as u64));
                            proof {
                                assert(variables_step(lines[i as int], vv) == (x, vv));
                                assert(variables_after(lines.skip(i as int), vv)
                                    == variables_after(lines.skip(i as int + 1), vv));
                                assert(self.without_variables.deep_view() =~= prev.push(x));
                                assert(prev.push(x) + variables_replaced_from(
                                    lines.skip(i as int + 1),
                                    vv,
                                ) =~= prev + (seq![x] + variables_replaced_from(
                                    lines.skip(i as int + 1),
                                    vv,
                                )));
                            }
                        },
                        None => {
                            proof {
                                assert(next_var_address(vv) == 16 + vv.len()) by {
                                    if vv.len() > 0 {
                                        assert(vv.last() == vv[vv.len() - 1]);
                                        assert(vv[vv.len() - 1].1 == 16 + (vv.len() - 1));
                                    }
                                }
                                let vv2a = vv.push((operand(lines[i as int]),
                                    next_var_address(vv)));
                                assert(variables_step(lines[i as int], vv).1 == vv2a);
                                assert(variables_after(lines.skip(i as int), vv)
                                    == variables_after(lines.skip(i as int + 1), vv2a));
                                assert(forall|k: int|
                                    0 <= k < vv2a.len() ==> (#[trigger] vv2a[k]).1 == 16 + k)
                                    by {
                                    assert(forall|k: int|
                                        0 <= k < vv.len() ==> vv2a[k] == vv[k]);
                                }
                                lemma_variable_allocation(lines.skip(i as int + 1), vv2a);
                                assert(vv2a.is_prefix_of(
                                    variables_after(lines.skip(i as int + 1), vv2a),
                                ));
                                assert(variables_after(lines, Seq::empty()).len() >= vv.len()
                                    + 1);
                                assert(vv.len() <= 65519);
                            }
                            let next: u16 = if vars.len() == 0 {
                                16
                            } else {
                                let last: u16 = vars[vars.len() - 1].1;
                                proof {
                                    assert(vars.deep_view()[vars@.len() - 1]
                                        == (vars@[vars@.len() - 1].0@, vars@[vars@.len() - 1].1));
                                    assert(vv[vars@.len() - 1].1 == 16 + (vars@.len() - 1));
                                    assert(last == 16 + vars@.len() - 1);
                                    assert(vv.last() == vv[vv.len() - 1]);
                                }
                                last + 1
                            };
                            proof {
                                assert(next == next_var_address(vv));
                            }
                            let ghost x = address_line(next as nat);
                            let ghost vv2 = vv.push((sym@, next as nat));
                            vars.push((String::from_str(sym), next));
                            self.without_variables.push(address_string(next as u64));
                            proof {
                                assert(vars_view(vars.deep_view()) =~= vv2);
                                assert(variables_step(lines[i as int], vv) == (x, vv2));
                                assert(forall|k: int|
                                    0 <= k < vv2.len() ==> #[trigger] vv2[k].1 == 16 + k);
                                assert(self.without_variables.deep_view() =~= prev.push(x));
                                assert(prev.push(x) + variables_replaced_from(
                                    lines.skip(i as int + 1),
                                    vv2,
                                ) =~= prev + (seq![x] + variables_replaced_from(
                                    lines.skip(i as int + 1),
                                    vv2,
                                )));
                            }
                        },
                    }
                }
            } else {
                let ghost x = lines[i as int];
                self.without_variables.push(op);
                proof {
                    assert(!is_address_line(lines[i as int]));
                    assert(variables_step(lines[i as int], vv) == (x, vv));
                    assert(variables_after(lines.skip(i as int), vv) == variables_after(
                        lines.skip(i as int + 1),
                        vv,
                    ));
                    assert(self.without_variables.deep_view() =~= prev.push(x));
                    assert(prev.push(x) + variables_replaced_from(lines.skip(i as int + 1), vv)
                        =~= prev + (seq![x] + variables_replaced_from(
                        lines.skip(i as int + 1),
                        vv,
                    )));
                }
            }
            i = i + 1;
        }
        proof {
            assert(lines.skip(n as int) =~= Seq::<Seq<char>>::empty());
            assert(self.without_variables.deep_view() + Seq::<Seq<char>>::empty()
                =~= self.without_variables.deep_view());
            assert(self.without_variables.deep_view() =~= out0 + variables_replaced(lines));
        }
    }

    /// Run the three resolver stages in their fixed order on a fresh
    /// session: symbols, then labels, then variables.
    pub fn pre_process(&mut self)
        requires
            old(self).without_symbols@.len() == 0,
            old(self).without_labels@.len() == 0,
            old(self).without_variables@.len() == 0,
            variables_after(
                labels_replaced(symbols_replaced(old(self).source.deep_view())),
                Seq::empty(),
            ).len() <= 65520,
        ensures
            final(self).source == old(self).source,
            final(self).without_symbols.deep_view() == symbols_replaced(
                old(self).source.deep_view(),
            ),
            final(self).without_labels.deep_view() == labels_replaced(
                symbols_replaced(old(self).source.deep_view()),
            ),
            final(self).without_variables.deep_view() == variables_replaced(
                labels_replaced(symbols_replaced(old(self).source.deep_view())),
            ),
    {
        let ghost src: Seq<Seq<char>> = self.source.deep_view();
        self.replace_symbols();
        proof {
            assert(self.without_symbols.deep_view() =~= symbols_replaced(src));
        }
        self.replace_labels();
        proof {
            assert(self.without_labels.deep_view() =~= labels_replaced(symbols_replaced(src)));
        }
        self.replace_variables();
        proof {
            assert(self.without_variables.deep_view() =~= variables_replaced(
                labels_replaced(symbols_replaced(src)),
            ));
        }
    }

    /// Encode every fully resolved line in order: the whole program's
    /// machine words, or the first failing line's error with no output at
    /// all.
    pub fn compile(&self) -> (r: Result<Vec<String>, String>)
        ensures
            compile_result_view(&r) == compile_lines(self.without_variables.deep_view()),
    {
        let ghost lines: Seq<Seq<char>> = self.without_variables.deep_view();
        let mut out: Vec<String> = Vec::new();
        let n: usize = self.without_variables.len();
        let mut i: usize = 0;
        proof {
            assert(lines.skip(0) =~= lines);
        }
        while i < n
            invariant
                i <= n,
                n == self.without_variables.len(),
                self.without_variables.deep_view() == lines,
                match compile_lines(lines.skip(i as int)) {
                    Result::Ok(rest) => compile_lines(lines) == Result::Ok::<
                        Seq<Seq<char>>,
                        Seq<char>,
                    >(out.deep_view() + rest),
                    Result::Err(e) => compile_lines(lines) == Result::Err::<
                        Seq<Seq<char>>,
                        Seq<char>,
                    >(e),
                },
            decreases n - i,
        {
            let ghost prev = out.deep_view();
            proof {
                assert(lines.skip(i as int)[0] == lines[i as int]);
                assert(lines.skip(i as int).drop_first() =~= lines.skip(i as int + 1));
                assert(lines[i as int] == self.without_variables@[i as int]@);
            }
            let op = &self.without_variables[i];
            match Instruction::from(op.as_str()) {
                Some(inst) => {
                    match inst.to_hack() {
                        Ok(h) => {
                            let ghost hv = h@;
                            out.push(h);
                            proof {
                                assert(encode_line(lines[i as int]) == Result::Ok::<
                                    Seq<char>,
                                    Seq<char>,
                                >(hv));
                                assert(out.deep_view() =~= prev.push(hv));
                                match compile_lines(lines.skip(i as int + 1)) {
                                    Result::Ok(rest) => {
                                        assert(prev + (seq![hv] + rest) =~= prev.push(hv)
                                            + rest);
                                    },
                                    Result::Err(e) => {},
                                }
                            }
                        },
                        Err(e) => {
                            proof {
                                assert(encode_line(lines[i as int]) == Result::Err::<
                                    Seq<char>,
                                    Seq<char>,
                                >(e@));
                            }
                            return Err(e);
                        },
                    }
                },
                None => {
                    let mut e = String::from_str("Could not parse ");
                    e.append(op.as_str());
                    proof {
                        assert(encode_line(lines[i as int]) == Result::Err::<
                            Seq<char>,
                            Seq<char>,
                        >(e@));
                    }
                    return Err(e);
                },
            }
            i = i + 1;
        }
        proof {
            assert(lines.skip(n as int) =~= Seq::<Seq<char>>::empty());
            assert(out.deep_view() + Seq::<Seq<char>>::empty() =~= out.deep_view());
        }
        Ok(out)
    }
}

} // verus!
