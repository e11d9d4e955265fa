use rvld::linker::args::{parseArgs, ArgRead, Parsed, ReadArg, ReadFlag};
use rvld::linker::context::Context;
use rvld::linker::elf::MachineType;
use rvld::linker::error::LinkError;

fn args(list: &[&str]) -> Vec<Vec<u8>> {
    list.iter().map(|s| s.as_bytes().to_vec()).collect()
}

fn parse(list: &[&str]) -> (Context, Result<Parsed, LinkError>) {
    let mut ctx = Context::new();
    let r = parseArgs(&mut ctx, &args(list));
    (ctx, r)
}

fn inputs(list: &[&str]) -> Result<Parsed, LinkError> {
    Ok(Parsed::Inputs(args(list)))
}

#[test]
fn a_fresh_context_has_the_defaults() {
    let ctx = Context::new();
    assert_eq!(ctx.Args.Output, b"a.out".to_vec());
    assert_eq!(ctx.Args.Emulation, MachineType::MachineTypeNone);
    assert!(ctx.Args.LIbraryPaths.is_empty());
    assert!(ctx.Objs.is_empty() && ctx.SymbolMap.is_empty() && ctx.Chunks.is_empty());
    assert_eq!(ctx.Got.Chunk.Name, b".got".to_vec());
    assert_eq!((ctx.Got.Chunk.Shdr.Type, ctx.Got.Chunk.Shdr.Flags, ctx.Got.Chunk.Shdr.AddrAlign), (1, 3, 0));
    assert_eq!(ctx.TpAddr, 0);
}

#[test]
fn plain_arguments_are_inputs() {
    let (ctx, r) = parse(&["a.o", "b.o"]);
    assert_eq!(r, inputs(&["a.o", "b.o"]));
    assert_eq!(ctx.Args.Output, b"a.out".to_vec());
    let (_, r) = parse(&[]);
    assert_eq!(r, inputs(&[]));
}

#[test]
fn output_can_be_given_in_every_spelling() {
    for list in [
        vec!["-o", "out", "a.o"],
        vec!["-oout", "a.o"],
        vec!["a.o", "--output", "out"],
        vec!["a.o", "--output=out"],
    ] {
        let (ctx, r) = parse(&list);
        assert_eq!(r, inputs(&["a.o"]));
        assert_eq!(ctx.Args.Output, b"out".to_vec());
    }
    // the later one wins
    let (ctx, _) = parse(&["-o", "x", "-o", "y"]);
    assert_eq!(ctx.Args.Output, b"y".to_vec());
    // one dash and a long name reads as -o with the rest as its value
    let (ctx, _) = parse(&["-output=x"]);
    assert_eq!(ctx.Args.Output, b"utput=x".to_vec());
}

#[test]
fn emulation_has_to_be_riscv() {
    let (ctx, r) = parse(&["-m", "elf64lriscv", "a.o"]);
    assert_eq!(r, inputs(&["a.o"]));
    assert_eq!(ctx.Args.Emulation, MachineType::MachineTypeRISCV64);
    let (ctx, r) = parse(&["-melf64lriscv"]);
    assert_eq!(r, inputs(&[]));
    assert_eq!(ctx.Args.Emulation, MachineType::MachineTypeRISCV64);
    assert_eq!(parse(&["-m", "elf_x86_64"]).1, Err(LinkError::Cli));
    assert_eq!(parse(&["-march=rv64"]).1, Err(LinkError::Cli));
}

#[test]
fn search_paths_and_libraries() {
    let (ctx, r) = parse(&["-L", "/lib", "-lc", "-L/usr/lib", "-l", "m", "a.o"]);
    assert_eq!(r, inputs(&["-lc", "-lm", "a.o"]));
    assert_eq!(ctx.Args.LIbraryPaths, args(&["/lib", "/usr/lib"]));
}

#[test]
fn some_options_are_passed_over() {
    let (ctx, r) = parse(&[
        "--sysroot=/x", "-plugin", "p.so", "--plugin-opt=a", "--hash-style=gnu", "--build-id=sha1",
        "-z", "now", "-znorelro", "-static", "--static", "-s", "--no-relax", "--as-needed",
        "--start-group", "a.o", "--end-group",
    ]);
    assert_eq!(r, inputs(&["a.o"]));
    assert_eq!(ctx.Args.Output, b"a.out".to_vec());
    assert!(ctx.Args.LIbraryPaths.is_empty());
}

#[test]
fn help_and_version_end_the_reading() {
    assert_eq!(parse(&["--help"]).1, Ok(Parsed::Help));
    assert_eq!(parse(&["-help", "--bogus"]).1, Ok(Parsed::Help));
    assert_eq!(parse(&["a.o", "-v"]).1, Ok(Parsed::Version));
    assert_eq!(parse(&["--version"]).1, Ok(Parsed::Version));
    assert_eq!(parse(&["-version"]).1, Ok(Parsed::Version));
    // --v is no option
    assert_eq!(parse(&["--v"]).1, Err(LinkError::Cli));
}

#[test]
fn bad_command_lines() {
    assert_eq!(parse(&["--bogus"]).1, Err(LinkError::Cli));
    assert_eq!(parse(&["-x"]).1, Err(LinkError::Cli));
    assert_eq!(parse(&["-"]).1, Err(LinkError::Cli));
    assert_eq!(parse(&["-o"]).1, Err(LinkError::Cli));
    assert_eq!(parse(&["a.o", "--output"]).1, Err(LinkError::Cli));
    assert_eq!(parse(&["-m"]).1, Err(LinkError::Cli));
    assert_eq!(parse(&["-L"]).1, Err(LinkError::Cli));
    assert_eq!(parse(&["-l"]).1, Err(LinkError::Cli));
    assert_eq!(parse(&["-z"]).1, Err(LinkError::Cli));
    assert_eq!(parse(&["--sysroot"]).1, Err(LinkError::Cli));
}

#[test]
fn single_options_are_read() {
    let a = args(&["-o", "x", "--output=y", "-static"]);
    assert!(matches!(ReadArg(&a, 0, "o"), ArgRead::Value(v, 2) if v == b"x"));
    assert!(matches!(ReadArg(&a, 2, "output"), ArgRead::Value(v, 1) if v == b"y"));
    assert!(matches!(ReadArg(&a, 2, "o"), ArgRead::No));
    assert!(matches!(ReadArg(&a, 1, "o"), ArgRead::No));
    assert!(matches!(ReadArg(&args(&["-o"]), 0, "o"), ArgRead::Missing));
    assert!(ReadFlag(&a, 3, "static"));
    assert!(!ReadFlag(&a, 3, "s"));
    assert!(!ReadFlag(&a, 0, "static"));
}
