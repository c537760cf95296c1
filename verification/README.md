# moonblokz-vm

Bytecode execution engine for chain-configuration parameters: a stack machine over
`u64` with fuel accounting and a single host seam, and the assembler and
disassembler of its instruction set. Written and proved in Verus.

## Shape

`Vm<STACK_DEPTH, LOCAL_SLOTS, MAX_NESTING>::execute(program, args, fuel, host) -> VmOutcome`

The three bounds are the caller's. `VmOutcome` is `Completed(u64)`,
`Trapped(TrapReason)` or `OutOfFuel`: the machine reports, it does not decide.

The host implements `VmHost`. It may spend fuel and may not add any, and it hands the
budget back at the nesting depth at which it was given; `Vm::execute` keeps the same
promise, so a host that evaluates a parameter's own program on the same budget does
too.

`assemble` names the line of the first mistake, and `parse_hex` refuses text that is not
hexadecimal with a message; a pair may also be a plus sign and a digit. `try_assemble` and `try_parse_hex` set two kinds of text apart
and return `None` for them: a source in which a statement is made of commas only, and a
text in which a pair of digits would end inside a character.

## Layout

| Module | Holds |
|---|---|
| `opcode`, `instruction`, `mnemonic` | the instruction set |
| `semantics` | what a program means: state, step, run |
| `machine`, `stack`, `fuel`, `host`, `outcome` | the machine, proved to do that |
| `laws` | what holds of every execution |
| `assembly` / `assembler` | what source text means, and the assembler |
| `disassembly` / `disassembler` | the canonical text, and the disassembler |
| `hex` | programs as hexadecimal text |
| `canonical`, `source_laws`, `notation`, `roundtrip`, `assembled` | what holds of text and bytes |
| `text`, `number`, `encoding` | characters, numerals and bytes |

`app/` holds the command-line tools:

```
vm asm program.asm -o program.bin
vm dis --hex "70 01 00 10 02 43 01"
```

## What is taken on trust

That `String::push` appends its character, and that a host keeps the contract of
`VmHost::call`. Everything else in `src/` is proved.
