//! The two passes: the symbol resolver, which maps label declarations to
//! instruction addresses, and the instruction encoder, which emits one
//! 16-character binary line per real instruction and allocates data
//! addresses, from 16 up, to fresh symbolic operands.

use vstd::prelude::*;
use vstd::string::{StrSliceExecFns, StringExecFns};
use crate::scan::{spec_trim, spec_lines, trim_str, split_lines};
use crate::parse::{
    spec_is_ignored, spec_is_label, spec_label_name, spec_payload, spec_parse_u16, spec_dest_text,
    spec_comp_text, spec_jump_text, is_ignored_line, is_label_line, payload_of, parse_u16,
    split_fields,
};
use crate::codes::{
    spec_dest_code, spec_comp_code, spec_jump_code, spec_bin16, dest_to_binary, comp_to_binary,
    jump_to_binary, bits_string, spec_is_bits, lemma_dest_code_shape, lemma_comp_code_shape,
    lemma_jump_code_shape, lemma_bits_shape,
};
use crate::symbols::{SymbolTable, spec_predefined, spec_lookup};

verus! {

/// A line that stands for an instruction: after trimming it is neither
/// skipped nor a label declaration.
pub open spec fn spec_is_real(line: Seq<char>) -> bool {
    !spec_is_ignored(spec_trim(line)) && !spec_is_label(spec_trim(line))
}

/// How many of the lines stand for instructions.
pub open spec fn spec_instr_count(lines: Seq<Seq<char>>) -> nat
    decreases lines.len(),
{
    if lines.len() == 0 {
        0
    } else {
        ((if spec_is_real(lines[0]) {
            1int
        } else {
            0int
        }) + spec_instr_count(lines.drop_first())) as nat
    }
}

/// The first pass over `lines`: starting from `table` with the instruction
/// counter at `counter`, each label declaration is mapped to the address of
/// the next real instruction, a later declaration of the same name
/// overriding an earlier one.
pub open spec fn spec_pass1(
    lines: Seq<Seq<char>>,
    counter: nat,
    table: Map<Seq<char>, u16>,
) -> Map<Seq<char>, u16>
    decreases lines.len(),
{
    if lines.len() == 0 {
        table
    } else {
        let t = spec_trim(lines[0]);
        if spec_is_ignored(t) {
            spec_pass1(lines.drop_first(), counter, table)
        } else if spec_is_label(t) {
            spec_pass1(lines.drop_first(), counter, table.insert(spec_label_name(t), counter as u16))
        } else {
            spec_pass1(lines.drop_first(), counter + 1, table)
        }
    }
}

/// The table the first pass builds for a source text: predefined symbols
/// plus every declared label.
pub open spec fn spec_symbol_table(src: Seq<char>) -> Map<Seq<char>, u16> {
    spec_pass1(spec_lines(src), 0, spec_predefined())
}

/// What the second pass has produced: the encoded lines, the extended
/// table, and the next free data address.
pub struct EncodeState {
    pub output: Seq<Seq<char>>,
    pub table: Map<Seq<char>, u16>,
    pub next_data: nat,
}

/// The encoding of a compute payload: the format header, then the compute,
/// destination and jump codes.
pub open spec fn spec_compute_line(p: Seq<char>) -> Seq<char> {
    seq!['1', '1', '1'] + spec_comp_code(spec_comp_text(p)) + spec_dest_code(spec_dest_text(p))
        + spec_jump_code(spec_jump_text(p))
}

/// The second pass over `lines`, starting from `table` with the next free
/// data address at `next_data`: one encoded line per real instruction, in
/// order; an address-load of a fresh symbol allocates the next data address.
pub open spec fn spec_pass2(
    lines: Seq<Seq<char>>,
    table: Map<Seq<char>, u16>,
    next_data: nat,
) -> EncodeState
    decreases lines.len(),
{
    if lines.len() == 0 {
        EncodeState { output: Seq::empty(), table, next_data }
    } else {
        let t = spec_trim(lines[0]);
        if spec_is_ignored(t) || spec_is_label(t) {
            spec_pass2(lines.drop_first(), table, next_data)
        } else {
            let p = spec_payload(t);
            if p.len() > 0 && p[0] == '@' {
                let operand = p.drop_first();
                match spec_parse_u16(operand) {
                    Some(n) => {
                        let rest = spec_pass2(lines.drop_first(), table, next_data);
                        EncodeState {
                            output: seq![spec_bin16(n)] + rest.output,
                            table: rest.table,
                            next_data: rest.next_data,
                        }
                    },
                    None => {
                        if table.contains_key(operand) {
                            let rest = spec_pass2(lines.drop_first(), table, next_data);
                            EncodeState {
                                output: seq![spec_bin16(table[operand])] + rest.output,
                                table: rest.table,
                                next_data: rest.next_data,
                            }
                        } else {
                            let rest = spec_pass2(
                                lines.drop_first(),
                                table.insert(operand, next_data as u16),
                                next_data + 1,
                            );
                            EncodeState {
                                output: seq![spec_bin16(next_data as u16)] + rest.output,
                                table: rest.table,
                                next_data: rest.next_data,
                            }
                        }
                    },
                }
            } else {
                let rest = spec_pass2(lines.drop_first(), table, next_data);
                EncodeState {
                    output: seq![spec_compute_line(p)] + rest.output,
                    table: rest.table,
                    next_data: rest.next_data,
                }
            }
        }
    }
}

/// The next free data address never moves backwards.
pub proof fn lemma_pass2_next_data(lines: Seq<Seq<char>>, table: Map<Seq<char>, u16>, next_data: nat)
    ensures
        spec_pass2(lines, table, next_data).next_data >= next_data,
    decreases lines.len(),
{
    if lines.len() > 0 {
        let t = spec_trim(lines[0]);
        if spec_is_ignored(t) || spec_is_label(t) {
            lemma_pass2_next_data(lines.drop_first(), table, next_data);
        } else {
            let p = spec_payload(t);
            if p.len() > 0 && p[0] == '@' {
                let operand = p.drop_first();
                match spec_parse_u16(operand) {
                    Some(n) => {
                        lemma_pass2_next_data(lines.drop_first(), table, next_data);
                    },
                    None => {
                        if table.contains_key(operand) {
                            lemma_pass2_next_data(lines.drop_first(), table, next_data);
                        } else {
                            lemma_pass2_next_data(
                                lines.drop_first(),
                                table.insert(operand, next_data as u16),
                                next_data + 1,
                            );
                        }
                    },
                }
            } else {
                lemma_pass2_next_data(lines.drop_first(), table, next_data);
            }
        }
    }
}

/// Builds the symbol table of the first pass: the predefined symbols plus
/// every label declaration, mapped to the 0-based address of the next real
/// instruction.
///
/// The instruction count is bounded so that every assigned address fits the
/// table's 16-bit address width.
pub fn build_symbol_table(assembly_code: &str) -> (symbol_table: SymbolTable)
    requires
        spec_instr_count(spec_lines(assembly_code@)) <= 0xFFFF,
    ensures
        symbol_table@ == spec_symbol_table(assembly_code@),
{
    let ghost ls = spec_lines(assembly_code@);
    let lines = split_lines(assembly_code);
    let mut symbol_table = SymbolTable::predefined();
    let mut counter: usize = 0;
    let mut k: usize = 0;
    proof {
        assert(ls.skip(0) =~= ls);
    }
    while k < lines.len()
        invariant
            0 <= k <= lines@.len(),
            lines@.len() == ls.len(),
            forall|i: int| 0 <= i < ls.len() ==> #[trigger] lines@[i]@ == ls[i],
            spec_pass1(ls, 0, spec_predefined()) == spec_pass1(ls.skip(k as int), counter as nat, symbol_table@),
            counter + spec_instr_count(ls.skip(k as int)) == spec_instr_count(ls),
            spec_instr_count(ls) <= 0xFFFF,
        decreases lines@.len() - k,
    {
        let line = lines[k];
        let t = trim_str(line);
        proof {
            assert(ls.skip(k as int)[0] == ls[k as int]);
            assert(ls.skip(k as int).drop_first() =~= ls.skip(k as int + 1));
        }
        if is_ignored_line(t) {
        } else if is_label_line(t) {
            let tn = t.unicode_len();
            proof {
                assert(t@.len() >= 2) by {
                    if t@.len() == 1 {
                        assert(t@[0] == '(' && t@.last() == ')');
                    }
                }
            }
            let name = t.substring_char(1, tn - 1);
            proof {
                assert(name@ =~= spec_label_name(t@));
                assert(counter <= 0xFFFF);
            }
            symbol_table.insert(name, counter as u16);
        } else {
            counter = counter + 1;
        }
        k = k + 1;
    }
    proof {
        assert(ls.skip(ls.len() as int) =~= Seq::<Seq<char>>::empty());
    }
    symbol_table
}

/// Encodes the source against `symbol_table`, one 16-character binary line
/// per real instruction in source order, extending the table with a fresh
/// data address, from 16 up, for each previously unseen symbolic operand.
///
/// The bound on the final data address keeps every allocated address within
/// the table's 16-bit address width.
pub fn assemble(assembly_code: &str, symbol_table: &mut SymbolTable) -> (machine_code: Vec<String>)
    requires
        spec_pass2(spec_lines(assembly_code@), old(symbol_table)@, 16).next_data <= 0x10000,
    ensures
        final(symbol_table)@ == spec_pass2(spec_lines(assembly_code@), old(symbol_table)@, 16).table,
        machine_code@.len() == spec_pass2(spec_lines(assembly_code@), old(symbol_table)@, 16).output.len(),
        forall|i: int|
            0 <= i < machine_code@.len() ==> #[trigger] machine_code@[i]@ == spec_pass2(
                spec_lines(assembly_code@),
                old(symbol_table)@,
                16,
            ).output[i],
{
    let ghost ls = spec_lines(assembly_code@);
    let ghost start_table = symbol_table@;
    let lines = split_lines(assembly_code);
    let mut machine_code: Vec<String> = Vec::new();
    let mut next_data: usize = 16;
    let mut k: usize = 0;
    proof {
        assert(ls.skip(0) =~= ls);
    }
    while k < lines.len()
        invariant
            0 <= k <= lines@.len(),
            lines@.len() == ls.len(),
            forall|i: int| 0 <= i < ls.len() ==> #[trigger] lines@[i]@ == ls[i],
            16 <= next_data <= 0x10000,
            spec_pass2(ls, start_table, 16).table == spec_pass2(
                ls.skip(k as int),
                symbol_table@,
                next_data as nat,
            ).table,
            spec_pass2(ls, start_table, 16).next_data == spec_pass2(
                ls.skip(k as int),
                symbol_table@,
                next_data as nat,
            ).next_data,
            spec_pass2(ls, start_table, 16).next_data <= 0x10000,
            machine_code@.len() + spec_pass2(ls.skip(k as int), symbol_table@, next_data as nat).output.len()
                == spec_pass2(ls, start_table, 16).output.len(),
            forall|i: int|
                0 <= i < machine_code@.len() ==> #[trigger] machine_code@[i]@ == spec_pass2(
                    ls,
                    start_table,
                    16,
                ).output[i],
            forall|i: int|
                0 <= i < spec_pass2(ls.skip(k as int), symbol_table@, next_data as nat).output.len()
                    ==> #[trigger] spec_pass2(ls.skip(k as int), symbol_table@, next_data as nat).output[i]
                    == spec_pass2(ls, start_table, 16).output[machine_code@.len() + i],
        decreases lines@.len() - k,
    {
        let ghost before = spec_pass2(ls.skip(k as int), symbol_table@, next_data as nat);
        let line = lines[k];
        let t = trim_str(line);
        proof {
            assert(ls.skip(k as int)[0] == ls[k as int]);
            assert(ls.skip(k as int).drop_first() =~= ls.skip(k as int + 1));
        }
        let skip_line = is_ignored_line(t) || is_label_line(t);
        if !skip_line {
            let p = payload_of(t);
            let pn = p.unicode_len();
            if pn > 0 && p.get_char(0) == '@' {
                let operand = p.substring_char(1, pn);
                proof {
                    assert(operand@ =~= p@.drop_first());
                }
                let parsed = parse_u16(operand);
                let address: u16 = match parsed {
                    Some(number) => number,
                    None => {
                        match symbol_table.lookup(operand) {
                            Some(found) => found,
                            None => {
                                proof {
                                    lemma_pass2_next_data(
                                        ls.skip(k as int + 1),
                                        symbol_table@.insert(operand@, next_data as u16),
                                        next_data as nat + 1,
                                    );
                                    assert(next_data < 0x10000);
                                }
                                let fresh: u16 = next_data as u16;
                                symbol_table.insert(operand, fresh);
                                next_data = next_data + 1;
                                fresh
                            },
                        }
                    },
                };
                proof {
                    assert(before.output == seq![spec_bin16(address)] + spec_pass2(
                        ls.skip(k as int + 1),
                        symbol_table@,
                        next_data as nat,
                    ).output);
                    assert(before.output[0] == spec_bin16(address));
                    assert forall|i: int|
                        0 <= i < spec_pass2(
                            ls.skip(k as int + 1),
                            symbol_table@,
                            next_data as nat,
                        ).output.len() implies #[trigger] spec_pass2(
                        ls.skip(k as int + 1),
                        symbol_table@,
                        next_data as nat,
                    ).output[i] == spec_pass2(ls, start_table, 16).output[machine_code@.len() + 1
                        + i] by {
                        assert(before.output[i + 1] == spec_pass2(
                            ls.skip(k as int + 1),
                            symbol_table@,
                            next_data as nat,
                        ).output[i]);
                    }
                }
                let encoded = bits_string(address, 16);
                machine_code.push(encoded);
            } else {
                let fields = split_fields(p);
                let mut encoded = String::from_str("111");
                encoded.append(comp_to_binary(fields.1));
                encoded.append(dest_to_binary(fields.0));
                encoded.append(jump_to_binary(fields.2));
                proof {
                    reveal_strlit("111");
                    assert(encoded@ =~= spec_compute_line(p@));
                    assert(before.output == seq![spec_compute_line(p@)] + spec_pass2(
                        ls.skip(k as int + 1),
                        symbol_table@,
                        next_data as nat,
                    ).output);
                    assert(before.output[0] == spec_compute_line(p@));
                    assert forall|i: int|
                        0 <= i < spec_pass2(
                            ls.skip(k as int + 1),
                            symbol_table@,
                            next_data as nat,
                        ).output.len() implies #[trigger] spec_pass2(
                        ls.skip(k as int + 1),
                        symbol_table@,
                        next_data as nat,
                    ).output[i] == spec_pass2(ls, start_table, 16).output[machine_code@.len() + 1
                        + i] by {
                        assert(before.output[i + 1] == spec_pass2(
                            ls.skip(k as int + 1),
                            symbol_table@,
                            next_data as nat,
                        ).output[i]);
                    }
                }
                machine_code.push(encoded);
            }
        } else {
            proof {
                assert(before == spec_pass2(ls.skip(k as int + 1), symbol_table@, next_data as nat));
            }
        }
        k = k + 1;
    }
    proof {
        assert(ls.skip(ls.len() as int) =~= Seq::<Seq<char>>::empty());
    }
    machine_code
}

/// A well-formed output line: exactly 16 characters, each `0` or `1`.
pub open spec fn spec_is_binary16(l: Seq<char>) -> bool {
    l.len() == 16 && spec_is_bits(l)
}

/// The encoding of a compute payload is 16 binary characters opening with
/// the format header.
pub proof fn lemma_compute_line_shape(p: Seq<char>)
    ensures
        spec_is_binary16(spec_compute_line(p)),
        spec_compute_line(p)[0] == '1' && spec_compute_line(p)[1] == '1' && spec_compute_line(p)[2]
            == '1',
{
    lemma_comp_code_shape(spec_comp_text(p));
    lemma_dest_code_shape(spec_dest_text(p));
    lemma_jump_code_shape(spec_jump_text(p));
    let l = spec_compute_line(p);
    assert forall|i: int| 0 <= i < l.len() implies l[i] == '0' || l[i] == '1' by {
        if 3 <= i < 10 {
            assert(l[i] == spec_comp_code(spec_comp_text(p))[i - 3]);
        } else if 10 <= i < 13 {
            assert(l[i] == spec_dest_code(spec_dest_text(p))[i - 10]);
        } else if 13 <= i {
            assert(l[i] == spec_jump_code(spec_jump_text(p))[i - 13]);
        }
    }
}

/// A listing opening with a well-formed line and continuing with a
/// well-formed tail is well-formed throughout.
proof fn lemma_width_cons(head: Seq<char>, rest: Seq<Seq<char>>, whole: Seq<Seq<char>>)
    requires
        whole == seq![head] + rest,
        spec_is_binary16(head),
        forall|i: int| 0 <= i < rest.len() ==> spec_is_binary16(#[trigger] rest[i]),
    ensures
        forall|i: int| 0 <= i < whole.len() ==> spec_is_binary16(#[trigger] whole[i]),
{
    assert forall|i: int| 0 <= i < whole.len() implies spec_is_binary16(whole[i]) by {
        if i > 0 {
            assert(whole[i] == rest[i - 1]);
        } else {
            assert(whole[0] == head);
        }
    }
}

/// Every line the second pass emits is exactly 16 characters of `0`/`1`.
pub proof fn lemma_output_width(lines: Seq<Seq<char>>, table: Map<Seq<char>, u16>, next_data: nat)
    ensures
        forall|i: int|
            0 <= i < spec_pass2(lines, table, next_data).output.len() ==> spec_is_binary16(
                #[trigger] spec_pass2(lines, table, next_data).output[i],
            ),
    decreases lines.len(),
{
    if lines.len() > 0 {
        let t = spec_trim(lines[0]);
        if spec_is_ignored(t) || spec_is_label(t) {
            lemma_output_width(lines.drop_first(), table, next_data);
        } else {
            let p = spec_payload(t);
            if p.len() > 0 && p[0] == '@' {
                let operand = p.drop_first();
                match spec_parse_u16(operand) {
                    Some(n) => {
                        lemma_output_width(lines.drop_first(), table, next_data);
                        lemma_bits_shape(n as nat, 16);
                        lemma_width_cons(
                            spec_bin16(n),
                            spec_pass2(lines.drop_first(), table, next_data).output,
                            spec_pass2(lines, table, next_data).output,
                        );
                    },
                    None => {
                        if table.contains_key(operand) {
                            lemma_output_width(lines.drop_first(), table, next_data);
                            lemma_bits_shape(table[operand] as nat, 16);
                            lemma_width_cons(
                                spec_bin16(table[operand]),
                                spec_pass2(lines.drop_first(), table, next_data).output,
                                spec_pass2(lines, table, next_data).output,
                            );
                        } else {
                            lemma_output_width(
                                lines.drop_first(),
                                table.insert(operand, next_data as u16),
                                next_data + 1,
                            );
                            lemma_bits_shape((next_data as u16) as nat, 16);
                            lemma_width_cons(
                                spec_bin16(next_data as u16),
                                spec_pass2(
                                    lines.drop_first(),
                                    table.insert(operand, next_data as u16),
                                    next_data + 1,
                                ).output,
                                spec_pass2(lines, table, next_data).output,
                            );
                        }
                    },
                }
            } else {
                lemma_output_width(lines.drop_first(), table, next_data);
                lemma_compute_line_shape(p);
                lemma_width_cons(
                    spec_compute_line(p),
                    spec_pass2(lines.drop_first(), table, next_data).output,
                    spec_pass2(lines, table, next_data).output,
                );
            }
        }
    }
}

/// The listing that a full run over a source text produces: the table of the
/// first pass, then the encoding of the second, data addresses from 16 up.
pub open spec fn spec_assembled(src: Seq<char>) -> Seq<Seq<char>> {
    spec_pass2(spec_lines(src), spec_symbol_table(src), 16).output
}

/// Encoding is a pure function of the source text: two runs, each from a
/// fresh symbol table, give the same listing.
pub proof fn lemma_assemble_deterministic(
    src: Seq<char>,
    first_run: Seq<Seq<char>>,
    second_run: Seq<Seq<char>>,
)
    requires
        first_run == spec_assembled(src),
        second_run == spec_assembled(src),
    ensures
        first_run == second_run,
{
}

/// The first pass leaves every name alone that no line declares as a label.
pub proof fn lemma_pass1_preserves(
    lines: Seq<Seq<char>>,
    counter: nat,
    table: Map<Seq<char>, u16>,
    name: Seq<char>,
)
    requires
        forall|i: int|
            0 <= i < lines.len() ==> !(spec_is_label(spec_trim(#[trigger] lines[i]))
                && spec_label_name(spec_trim(lines[i])) == name),
    ensures
        spec_lookup(spec_pass1(lines, counter, table), name) == spec_lookup(table, name),
    decreases lines.len(),
{
    if lines.len() > 0 {
        let t = spec_trim(lines[0]);
        assert forall|i: int|
            0 <= i < lines.drop_first().len() implies !(spec_is_label(
            spec_trim(#[trigger] lines.drop_first()[i]),
        ) && spec_label_name(spec_trim(lines.drop_first()[i])) == name) by {
            assert(lines.drop_first()[i] == lines[i + 1]);
        }
        if spec_is_ignored(t) {
            lemma_pass1_preserves(lines.drop_first(), counter, table, name);
        } else if spec_is_label(t) {
            lemma_pass1_preserves(
                lines.drop_first(),
                counter,
                table.insert(spec_label_name(t), counter as u16),
                name,
            );
        } else {
            lemma_pass1_preserves(lines.drop_first(), counter + 1, table, name);
        }
    }
}

/// The second pass never changes an entry that the table already holds.
pub proof fn lemma_pass2_preserves(
    lines: Seq<Seq<char>>,
    table: Map<Seq<char>, u16>,
    next_data: nat,
    name: Seq<char>,
)
    requires
        table.contains_key(name),
    ensures
        spec_pass2(lines, table, next_data).table.contains_key(name),
        spec_pass2(lines, table, next_data).table[name] == table[name],
    decreases lines.len(),
{
    if lines.len() > 0 {
        let t = spec_trim(lines[0]);
        if spec_is_ignored(t) || spec_is_label(t) {
            lemma_pass2_preserves(lines.drop_first(), table, next_data, name);
        } else {
            let p = spec_payload(t);
            if p.len() > 0 && p[0] == '@' {
                let operand = p.drop_first();
                match spec_parse_u16(operand) {
                    Some(n) => {
                        lemma_pass2_preserves(lines.drop_first(), table, next_data, name);
                    },
                    None => {
                        if table.contains_key(operand) {
                            lemma_pass2_preserves(lines.drop_first(), table, next_data, name);
                        } else {
                            lemma_pass2_preserves(
                                lines.drop_first(),
                                table.insert(operand, next_data as u16),
                                next_data + 1,
                                name,
                            );
                        }
                    },
                }
            } else {
                lemma_pass2_preserves(lines.drop_first(), table, next_data, name);
            }
        }
    }
}

/// A predefined symbol resolves to the same address before the passes and
/// after both, as long as no label declaration reuses its name.
pub proof fn lemma_predefined_stable(src: Seq<char>, name: Seq<char>)
    requires
        spec_predefined().contains_key(name),
        forall|i: int|
            0 <= i < spec_lines(src).len() ==> !(spec_is_label(
                spec_trim(#[trigger] spec_lines(src)[i]),
            ) && spec_label_name(spec_trim(spec_lines(src)[i])) == name),
    ensures
        spec_symbol_table(src).contains_key(name),
        spec_symbol_table(src)[name] == spec_predefined()[name],
        spec_pass2(spec_lines(src), spec_symbol_table(src), 16).table.contains_key(name),
        spec_pass2(spec_lines(src), spec_symbol_table(src), 16).table[name] == spec_predefined()[
            name
        ],
{
    lemma_pass1_preserves(spec_lines(src), 0, spec_predefined(), name);
    lemma_pass2_preserves(spec_lines(src), spec_symbol_table(src), 16, name);
}

/// Instruction counting splits at any cut point.
pub proof fn lemma_instr_count_split(lines: Seq<Seq<char>>, m: int)
    requires
        0 <= m <= lines.len(),
    ensures
        spec_instr_count(lines) == spec_instr_count(lines.take(m)) + spec_instr_count(
            lines.skip(m),
        ),
    decreases m,
{
    if m == 0 {
        assert(lines.take(0) =~= Seq::<Seq<char>>::empty());
        assert(lines.skip(0) =~= lines);
    } else {
        lemma_instr_count_split(lines.drop_first(), m - 1);
        assert(lines.take(m).drop_first() =~= lines.drop_first().take(m - 1));
        assert(lines.skip(m) =~= lines.drop_first().skip(m - 1));
        assert(lines.take(m)[0] == lines[0]);
    }
}

/// Lines none of which stands for an instruction add nothing to the count.
proof fn lemma_no_instr(lines: Seq<Seq<char>>)
    requires
        forall|k: int| 0 <= k < lines.len() ==> !spec_is_real(#[trigger] lines[k]),
    ensures
        spec_instr_count(lines) == 0,
    decreases lines.len(),
{
    if lines.len() > 0 {
        assert forall|k: int|
            0 <= k < lines.drop_first().len() implies !spec_is_real(
            #[trigger] lines.drop_first()[k],
        ) by {
            assert(lines.drop_first()[k] == lines[k + 1]);
        }
        lemma_no_instr(lines.drop_first());
    }
}

/// The address a label declaration at position `i` receives: the number of
/// real instructions among the lines before it.
pub open spec fn spec_label_address(lines: Seq<Seq<char>>, i: int) -> nat {
    spec_instr_count(lines.take(i))
}

/// Declaration order gives address order: a declaration never receives a
/// smaller address than an earlier one; a real instruction between two
/// declarations separates their addresses strictly, and none between makes
/// them equal.
pub proof fn lemma_label_address_order(lines: Seq<Seq<char>>, i: int, j: int)
    requires
        0 <= i <= j < lines.len(),
    ensures
        spec_label_address(lines, i) <= spec_label_address(lines, j),
        (exists|k: int| i <= k < j && spec_is_real(#[trigger] lines[k])) ==> spec_label_address(
            lines,
            i,
        ) < spec_label_address(lines, j),
        (forall|k: int| i <= k < j ==> !spec_is_real(#[trigger] lines[k])) ==> spec_label_address(
            lines,
            i,
        ) == spec_label_address(lines, j),
{
    let upto = lines.take(j);
    lemma_instr_count_split(upto, i);
    assert(upto.take(i) =~= lines.take(i));
    let between = upto.skip(i);
    if exists|k: int| i <= k < j && spec_is_real(#[trigger] lines[k]) {
        let k = choose|k: int| i <= k < j && spec_is_real(#[trigger] lines[k]);
        lemma_instr_count_split(between, k - i);
        let tail = between.skip(k - i);
        assert(tail[0] == lines[k]) by {
            assert(tail[0] == between[k - i]);
            assert(between[k - i] == upto[k]);
        }
        assert(spec_instr_count(tail) >= 1);
    }
    if forall|k: int| i <= k < j ==> !spec_is_real(#[trigger] lines[k]) {
        assert forall|x: int| 0 <= x < between.len() implies !spec_is_real(
            #[trigger] between[x],
        ) by {
            assert(between[x] == lines[i + x]);
        }
        lemma_no_instr(between);
    }
}

/// After the first pass the table maps a label name, declared last at
/// position `i`, to the pass's starting counter plus the number of real
/// instructions before that declaration.
pub proof fn lemma_pass1_assigns(
    lines: Seq<Seq<char>>,
    counter: nat,
    table: Map<Seq<char>, u16>,
    i: int,
)
    requires
        0 <= i < lines.len(),
        spec_is_label(spec_trim(lines[i])),
        forall|j: int|
            i < j < lines.len() ==> !(spec_is_label(spec_trim(#[trigger] lines[j]))
                && spec_label_name(spec_trim(lines[j])) == spec_label_name(spec_trim(lines[i]))),
    ensures
        spec_lookup(spec_pass1(lines, counter, table), spec_label_name(spec_trim(lines[i])))
            == Some((counter + spec_instr_count(lines.take(i))) as u16),
    decreases lines.len(),
{
    let name = spec_label_name(spec_trim(lines[i]));
    let t = spec_trim(lines[0]);
    if i == 0 {
        assert(lines.take(0) =~= Seq::<Seq<char>>::empty());
        let seeded = table.insert(name, counter as u16);
        assert forall|j: int|
            0 <= j < lines.drop_first().len() implies !(spec_is_label(
            spec_trim(#[trigger] lines.drop_first()[j]),
        ) && spec_label_name(spec_trim(lines.drop_first()[j])) == name) by {
            assert(lines.drop_first()[j] == lines[j + 1]);
        }
        lemma_pass1_preserves(lines.drop_first(), counter, seeded, name);
    } else {
        assert(lines.drop_first()[i - 1] == lines[i]);
        assert forall|j: int|
            i - 1 < j < lines.drop_first().len() implies !(spec_is_label(
            spec_trim(#[trigger] lines.drop_first()[j]),
        ) && spec_label_name(spec_trim(lines.drop_first()[j])) == spec_label_name(
            spec_trim(lines.drop_first()[i - 1]),
        )) by {
            assert(lines.drop_first()[j] == lines[j + 1]);
        }
        assert(lines.take(i).drop_first() =~= lines.drop_first().take(i - 1));
        assert(lines.take(i)[0] == lines[0]);
        if spec_is_ignored(t) {
            lemma_pass1_assigns(lines.drop_first(), counter, table, i - 1);
        } else if spec_is_label(t) {
            lemma_pass1_assigns(
                lines.drop_first(),
                counter,
                table.insert(spec_label_name(t), counter as u16),
                i - 1,
            );
        } else {
            lemma_pass1_assigns(lines.drop_first(), counter + 1, table, i - 1);
        }
    }
}

/// In the symbol table of a run, a label declared last at position `i`
/// holds the address of the next real instruction; with
/// `lemma_label_address_order` this is the address-ordering of labels.
pub proof fn lemma_symbol_table_label(src: Seq<char>, i: int)
    requires
        0 <= i < spec_lines(src).len(),
        spec_is_label(spec_trim(spec_lines(src)[i])),
        forall|j: int|
            i < j < spec_lines(src).len() ==> !(spec_is_label(
                spec_trim(#[trigger] spec_lines(src)[j]),
            ) && spec_label_name(spec_trim(spec_lines(src)[j])) == spec_label_name(
                spec_trim(spec_lines(src)[i]),
            )),
        spec_instr_count(spec_lines(src)) <= 0xFFFF,
    ensures
        spec_symbol_table(src).contains_key(spec_label_name(spec_trim(spec_lines(src)[i]))),
        spec_symbol_table(src)[spec_label_name(spec_trim(spec_lines(src)[i]))]
            == spec_label_address(spec_lines(src), i),
{
    lemma_pass1_assigns(spec_lines(src), 0, spec_predefined(), i);
    lemma_instr_count_split(spec_lines(src), i);
}

/// The symbolic operand of a line: present when the line is a real
/// address-load instruction whose operand does not read as a number.
pub open spec fn spec_symbolic_operand(line: Seq<char>) -> Option<Seq<char>> {
    let t = spec_trim(line);
    if spec_is_ignored(t) || spec_is_label(t) {
        None
    } else {
        let p = spec_payload(t);
        if p.len() > 0 && p[0] == '@' && spec_parse_u16(p.drop_first()) is None {
            Some(p.drop_first())
        } else {
            None
        }
    }
}

/// The distinct symbols outside `known` that the lines reference from
/// address-load operands, in order of first encounter.
pub open spec fn spec_fresh_symbols(lines: Seq<Seq<char>>, known: Set<Seq<char>>) -> Seq<Seq<char>>
    decreases lines.len(),
{
    if lines.len() == 0 {
        Seq::empty()
    } else {
        match spec_symbolic_operand(lines[0]) {
            Some(s) => {
                if known.contains(s) {
                    spec_fresh_symbols(lines.drop_first(), known)
                } else {
                    seq![s] + spec_fresh_symbols(lines.drop_first(), known.insert(s))
                }
            },
            None => spec_fresh_symbols(lines.drop_first(), known),
        }
    }
}

/// Data allocation order: counting from zero, the n-th distinct fresh
/// symbol the second pass meets receives the n-th data address after
/// `next_data`, and keeps it. The pass itself starts at 16, so its n-th
/// fresh symbol ends at address 16 + n.
pub proof fn lemma_data_allocation(
    lines: Seq<Seq<char>>,
    table: Map<Seq<char>, u16>,
    next_data: nat,
    n: int,
)
    requires
        0 <= n < spec_fresh_symbols(lines, table.dom()).len(),
        next_data + spec_fresh_symbols(lines, table.dom()).len() <= 0x10000,
    ensures
        spec_pass2(lines, table, next_data).table.contains_key(
            spec_fresh_symbols(lines, table.dom())[n],
        ),
        spec_pass2(lines, table, next_data).table[spec_fresh_symbols(lines, table.dom())[n]]
            == next_data + n,
    decreases lines.len(),
{
    let fresh = spec_fresh_symbols(lines, table.dom());
    let t = spec_trim(lines[0]);
    match spec_symbolic_operand(lines[0]) {
        Some(s) => {
            if table.dom().contains(s) {
                assert(table.contains_key(s));
                lemma_data_allocation(lines.drop_first(), table, next_data, n);
            } else {
                let seeded = table.insert(s, next_data as u16);
                assert(seeded.dom() =~= table.dom().insert(s));
                let tail = spec_fresh_symbols(lines.drop_first(), seeded.dom());
                assert(fresh == seq![s] + tail);
                if n == 0 {
                    assert(fresh[0] == s);
                    lemma_pass2_preserves(lines.drop_first(), seeded, next_data + 1, s);
                } else {
                    assert(fresh[n] == tail[n - 1]);
                    lemma_data_allocation(lines.drop_first(), seeded, next_data + 1, n - 1);
                }
            }
        },
        None => {
            match spec_parse_u16(spec_payload(t).drop_first()) {
                Some(number) => {
                    lemma_data_allocation(lines.drop_first(), table, next_data, n);
                },
                None => {
                    lemma_data_allocation(lines.drop_first(), table, next_data, n);
                },
            }
        },
    }
}

/// The second pass moves the next free data address forward once per fresh
/// symbol, and not otherwise.
pub proof fn lemma_next_data_counts_fresh(
    lines: Seq<Seq<char>>,
    table: Map<Seq<char>, u16>,
    next_data: nat,
)
    ensures
        spec_pass2(lines, table, next_data).next_data == next_data + spec_fresh_symbols(
            lines,
            table.dom(),
        ).len(),
    decreases lines.len(),
{
    if lines.len() > 0 {
        let t = spec_trim(lines[0]);
        match spec_symbolic_operand(lines[0]) {
            Some(s) => {
                if table.dom().contains(s) {
                    assert(table.contains_key(s));
                    lemma_next_data_counts_fresh(lines.drop_first(), table, next_data);
                } else {
                    let seeded = table.insert(s, next_data as u16);
                    assert(seeded.dom() =~= table.dom().insert(s));
                    lemma_next_data_counts_fresh(lines.drop_first(), seeded, next_data + 1);
                }
            },
            None => {
                match spec_parse_u16(spec_payload(t).drop_first()) {
                    Some(number) => {
                        lemma_next_data_counts_fresh(lines.drop_first(), table, next_data);
                    },
                    None => {
                        lemma_next_data_counts_fresh(lines.drop_first(), table, next_data);
                    },
                }
            },
        }
    }
}

/// There are never more fresh symbols than real instructions: each one is
/// first referenced from some address-load instruction.
pub proof fn lemma_fresh_at_most_instr(lines: Seq<Seq<char>>, known: Set<Seq<char>>)
    ensures
        spec_fresh_symbols(lines, known).len() <= spec_instr_count(lines),
    decreases lines.len(),
{
    if lines.len() > 0 {
        match spec_symbolic_operand(lines[0]) {
            Some(s) => {
                if known.contains(s) {
                    lemma_fresh_at_most_instr(lines.drop_first(), known);
                } else {
                    lemma_fresh_at_most_instr(lines.drop_first(), known.insert(s));
                }
            },
            None => {
                lemma_fresh_at_most_instr(lines.drop_first(), known);
            },
        }
    }
}

/// Counts the real instruction lines of the source, as `spec_instr_count`
/// describes.
pub fn count_instructions(assembly_code: &str) -> (n: usize)
    ensures
        n == spec_instr_count(spec_lines(assembly_code@)),
{
    let ghost ls = spec_lines(assembly_code@);
    let lines = split_lines(assembly_code);
    let mut n: usize = 0;
    let mut k: usize = 0;
    proof {
        assert(ls.skip(0) =~= ls);
    }
    while k < lines.len()
        invariant
            0 <= k <= lines@.len(),
            lines@.len() == ls.len(),
            forall|i: int| 0 <= i < ls.len() ==> #[trigger] lines@[i]@ == ls[i],
            n + spec_instr_count(ls.skip(k as int)) == spec_instr_count(ls),
            n <= k,
        decreases lines@.len() - k,
    {
        let t = trim_str(lines[k]);
        proof {
            assert(ls.skip(k as int)[0] == ls[k as int]);
            assert(ls.skip(k as int).drop_first() =~= ls.skip(k as int + 1));
        }
        if !is_ignored_line(t) && !is_label_line(t) {
            n = n + 1;
        }
        k = k + 1;
    }
    proof {
        assert(ls.skip(ls.len() as int) =~= Seq::<Seq<char>>::empty());
    }
    n
}

/// One full run over a source text: the first pass builds the symbol table,
/// the second encodes. `None` exactly when the source holds more real
/// instructions than the 16-bit address spaces are sure to absorb; the
/// original tool's counters would overflow there.
pub fn assemble_source(assembly_code: &str) -> (r: Option<Vec<String>>)
    ensures
        r is Some <==> spec_instr_count(spec_lines(assembly_code@)) <= 0xFFF0,
        r is Some ==> r.unwrap()@.len() == spec_assembled(assembly_code@).len(),
        r is Some ==> forall|i: int|
            0 <= i < r.unwrap()@.len() ==> #[trigger] r.unwrap()@[i]@ == spec_assembled(
                assembly_code@,
            )[i],
{
    let total = count_instructions(assembly_code);
    if total > 0xFFF0 {
        return None;
    }
    let mut symbol_table = build_symbol_table(assembly_code);
    proof {
        lemma_next_data_counts_fresh(spec_lines(assembly_code@), symbol_table@, 16);
        lemma_fresh_at_most_instr(spec_lines(assembly_code@), symbol_table@.dom());
    }
    let machine_code = assemble(assembly_code, &mut symbol_table);
    Some(machine_code)
}

} // verus!
