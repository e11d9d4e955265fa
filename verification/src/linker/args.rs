//! The command line: what each option does to the arguments of a link.
use vstd::prelude::*;
use vstd::string::StringSliceAdditionalSpecFns;
use crate::linker::context::Context;
use crate::linker::elf::MachineType;
use crate::linker::error::LinkError;
use crate::utils::{BytesEq, StartsWith, ToVec, starts_with};

verus! {

/// The byte strings that `v` holds.
pub open spec fn views(v: Seq<Vec<u8>>) -> Seq<Seq<u8>> {
    Seq::new(v.len(), |i: int| v[i]@)
}

/// The option called `name` as it is written: behind one dash, or behind
/// two.
pub open spec fn dashed(name: Seq<u8>, double: bool) -> Seq<u8> {
    if double {
        seq![0x2du8, 0x2du8] + name
    } else {
        seq![0x2du8] + name
    }
}

/// What reading an option that takes a value found at the head of the
/// arguments.
pub enum ArgRead {
    /// The head is not this option.
    No,
    /// The head is this option, and behind it the arguments end.
    Missing,
    /// The head is this option with this value, and takes up so many
    /// arguments.
    Value(Vec<u8>, usize),
}

/// What reading an option that takes a value found, for contracts.
pub ghost enum SpecRead {
    No,
    Missing,
    Value(Seq<u8>, int),
}

/// Whether `r` is `s`.
pub open spec fn read_is(r: ArgRead, s: SpecRead) -> bool {
    match (r, s) {
        (ArgRead::No, SpecRead::No) => true,
        (ArgRead::Missing, SpecRead::Missing) => true,
        (ArgRead::Value(v, n), SpecRead::Value(w, m)) => v@ == w && n == m,
        _ => false,
    }
}

/// Reads the option written `opt` at `args[i]`: the option alone takes the
/// next argument as its value; the option with more behind it, after `=`
/// where `eq` is set, has the rest as its value.
pub open spec fn read_with(args: Seq<Seq<u8>>, i: int, opt: Seq<u8>, eq: bool) -> SpecRead {
    let prefix = if eq {
        opt + seq![0x3du8]
    } else {
        opt
    };
    if args[i] == opt {
        if args.len() - i <= 1 {
            SpecRead::Missing
        } else {
            SpecRead::Value(args[i + 1], 2)
        }
    } else if starts_with(args[i], prefix) {
        SpecRead::Value(args[i].subrange(prefix.len() as int, args[i].len() as int), 1)
    } else {
        SpecRead::No
    }
}

/// Reads the option `name`, which takes a value, at `args[i]`. An option
/// of one letter is written with one dash and may have its value directly
/// behind it; a longer option is written with one dash or two and may have
/// its value behind `=`.
pub open spec fn read_arg(args: Seq<Seq<u8>>, i: int, name: Seq<u8>) -> SpecRead {
    if name.len() == 1 {
        read_with(args, i, dashed(name, false), false)
    } else {
        let one = read_with(args, i, dashed(name, false), true);
        if one is No {
            read_with(args, i, dashed(name, true), true)
        } else {
            one
        }
    }
}

/// Whether `args[i]` is the option `name`, which takes no value.
pub open spec fn read_flag(args: Seq<Seq<u8>>, i: int, name: Seq<u8>) -> bool {
    args[i] == dashed(name, false) || (name.len() != 1 && args[i] == dashed(name, true))
}

/// The first of two readings that found the option.
pub open spec fn or_read(a: SpecRead, b: SpecRead) -> SpecRead {
    if a is No {
        b
    } else {
        a
    }
}

/// What the options that are accepted and passed over find at `args[i]`.
pub open spec fn read_ignored(args: Seq<Seq<u8>>, i: int) -> SpecRead {
    let with_value = or_read(
        read_arg(args, i, "sysroot".spec_bytes()),
        or_read(
            read_arg(args, i, "plugin".spec_bytes()),
            or_read(
                read_arg(args, i, "plugin-opt".spec_bytes()),
                or_read(
                    read_arg(args, i, "hash-style".spec_bytes()),
                    or_read(
                        read_arg(args, i, "build-id".spec_bytes()),
                        read_arg(args, i, "z".spec_bytes()),
                    ),
                ),
            ),
        ),
    );
    if !(with_value is No) {
        with_value
    } else if read_flag(args, i, "static".spec_bytes()) || read_flag(args, i, "s".spec_bytes())
        || read_flag(args, i, "no-relax".spec_bytes()) || read_flag(
        args,
        i,
        "as-needed".spec_bytes(),
    ) || read_flag(args, i, "start-group".spec_bytes()) || read_flag(
        args,
        i,
        "end-group".spec_bytes(),
    ) {
        SpecRead::Value(Seq::empty(), 1)
    } else {
        SpecRead::No
    }
}

/// What the arguments have set so far.
pub ghost struct ArgState {
    pub output: Seq<u8>,
    pub emulation: MachineType,
    pub paths: Seq<Seq<u8>>,
    pub remaining: Seq<Seq<u8>>,
}

/// What the arguments ask for, for contracts.
pub ghost enum SpecParsed {
    Help,
    Version,
    Failed,
    Inputs(ArgState),
}

/// What the arguments ask for.
#[derive(Debug, PartialEq, Eq)]
pub enum Parsed {
    /// To print how the linker is used.
    Help,
    /// To print the version.
    Version,
    /// To link these inputs: file names, and libraries as `-l<name>`.
    Inputs(Vec<Vec<u8>>),
}

/// What one step of reading the arguments does.
pub ghost enum SpecStep {
    Help,
    Version,
    Failed,
    /// The arguments have set this, and the reading goes on so many
    /// arguments further.
    Next(ArgState, int),
}

/// What an option with a value does, read as `r`: nothing where the value
/// is missing or the option reaches behind the arguments.
pub open spec fn step_with(args: Seq<Seq<u8>>, i: int, r: SpecRead, st: ArgState) -> SpecStep {
    match r {
        SpecRead::Value(v, n) => if 1 <= n && i + n <= args.len() {
            SpecStep::Next(st, n)
        } else {
            SpecStep::Failed
        },
        _ => SpecStep::Failed,
    }
}

/// The value that `r` read; nothing where it read none.
pub open spec fn value_of(r: SpecRead) -> Seq<u8> {
    match r {
        SpecRead::Value(v, n) => v,
        _ => Seq::empty(),
    }
}

/// What the argument at `i` does, given what the arguments before it have
/// set: `help` and `version` (or `v`) end the reading; `o` or `output` set
/// the output path; `m` sets the emulation, which has to be `elf64lriscv`;
/// `L` adds a search path; `l` adds a library to the inputs; some options
/// are accepted and passed over; any other argument that starts with a
/// dash is an error, and any other argument is an input. An option whose
/// value is missing is an error.
pub open spec fn parse_step(args: Seq<Seq<u8>>, i: int, st: ArgState) -> SpecStep {
    let out = or_read(read_arg(args, i, "o".spec_bytes()), read_arg(args, i, "output".spec_bytes()));
    let m = read_arg(args, i, "m".spec_bytes());
    let big = read_arg(args, i, "L".spec_bytes());
    let small = read_arg(args, i, "l".spec_bytes());
    let ign = read_ignored(args, i);
    if read_flag(args, i, "help".spec_bytes()) {
        SpecStep::Help
    } else if !(out is No) {
        step_with(args, i, out, ArgState { output: value_of(out), ..st })
    } else if !(m is No) {
        if value_of(m) == "elf64lriscv".spec_bytes() {
            step_with(args, i, m, ArgState { emulation: MachineType::MachineTypeRISCV64, ..st })
        } else {
            SpecStep::Failed
        }
    } else if !(big is No) {
        step_with(args, i, big, ArgState { paths: st.paths.push(value_of(big)), ..st })
    } else if !(small is No) {
        step_with(
            args,
            i,
            small,
            ArgState {
                remaining: st.remaining.push(dashed("l".spec_bytes(), false) + value_of(small)),
                ..st
            },
        )
    } else if !(ign is No) {
        step_with(args, i, ign, st)
    } else if read_flag(args, i, "v".spec_bytes()) || read_flag(args, i, "version".spec_bytes()) {
        SpecStep::Version
    } else if starts_with(args[i], seq![0x2du8]) {
        SpecStep::Failed
    } else {
        SpecStep::Next(ArgState { remaining: st.remaining.push(args[i]), ..st }, 1)
    }
}

/// What the arguments from `i` on ask for, given what the arguments
/// before them have set: the arguments are read from left to right, step
/// by step, to the end or to the first that ends the reading.
pub open spec fn parse_from(args: Seq<Seq<u8>>, i: int, st: ArgState) -> SpecParsed
    decreases args.len() - i,
{
    if i < 0 || i >= args.len() {
        SpecParsed::Inputs(st)
    } else {
        match parse_step(args, i, st) {
            SpecStep::Help => SpecParsed::Help,
            SpecStep::Version => SpecParsed::Version,
            SpecStep::Failed => SpecParsed::Failed,
            SpecStep::Next(next, n) => if 1 <= n && i + n <= args.len() {
                parse_from(args, i + n, next)
            } else {
                SpecParsed::Failed
            },
        }
    }
}

/// The option called `name` as it is written.
fn Dashed(name: &[u8], double: bool) -> (r: Vec<u8>)
    ensures
        r@ == dashed(name@, double),
{
    let mut out: Vec<u8> = Vec::new();
    out.push(0x2d);
    if double {
        out.push(0x2d);
    }
    let n: usize = name.len();
    let ghost head = out@;
    let mut i: usize = 0;
    while i < n
        invariant
            i <= n,
            n == name@.len(),
            out@ == head + name@.subrange(0, i as int),
        decreases n - i,
    {
        out.push(name[i]);
        assert(out@ =~= head + name@.subrange(0, i + 1));
        i = i + 1;
    }
    assert(name@.subrange(0, n as int) =~= name@);
    assert(out@ =~= dashed(name@, double));
    out
}

fn ReadWith(args: &Vec<Vec<u8>>, i: usize, opt: &Vec<u8>, eq: bool) -> (r: ArgRead)
    requires
        i < args@.len(),
    ensures
        read_is(r, read_with(views(args@), i as int, opt@, eq)),
{
    let arg = &args[i];
    assert(views(args@)[i as int] == arg@);
    if BytesEq(arg.as_slice(), opt.as_slice()) {
        if args.len() - i <= 1 {
            return ArgRead::Missing;
        }
        assert(views(args@)[i + 1] == args@[i + 1]@);
        return ArgRead::Value(ToVec(args[i + 1].as_slice()), 2);
    }
    let mut prefix = ToVec(opt.as_slice());
    if eq {
        prefix.push(0x3d);
        assert(prefix@ =~= opt@ + seq![0x3du8]);
    }
    if StartsWith(arg.as_slice(), prefix.as_slice()) {
        let rest = crate::utils::Slice(
            arg.as_slice(),
            prefix.len() as u64,
            (arg.len() - prefix.len()) as u64,
        ).unwrap();
        return ArgRead::Value(rest, 1);
    }
    ArgRead::No
}

/// Reads the option `name`, which takes a value, at `args[i]`.
pub fn ReadArg(args: &Vec<Vec<u8>>, i: usize, name: &str) -> (r: ArgRead)
    requires
        i < args@.len(),
    ensures
        read_is(r, read_arg(views(args@), i as int, name.spec_bytes())),
{
    let n = name.as_bytes();
    let one = Dashed(n, false);
    if n.len() == 1 {
        return ReadWith(args, i, &one, false);
    }
    match ReadWith(args, i, &one, true) {
        ArgRead::No => {
            let two = Dashed(n, true);
            ReadWith(args, i, &two, true)
        },
        other => other,
    }
}

/// Whether `args[i]` is the option `name`, which takes no value.
pub fn ReadFlag(args: &Vec<Vec<u8>>, i: usize, name: &str) -> (r: bool)
    requires
        i < args@.len(),
    ensures
        r == read_flag(views(args@), i as int, name.spec_bytes()),
{
    let n = name.as_bytes();
    let arg = &args[i];
    assert(views(args@)[i as int] == arg@);
    let one = Dashed(n, false);
    if BytesEq(arg.as_slice(), one.as_slice()) {
        return true;
    }
    if n.len() != 1 {
        let two = Dashed(n, true);
        return BytesEq(arg.as_slice(), two.as_slice());
    }
    false
}

fn ReadIgnored(args: &Vec<Vec<u8>>, i: usize) -> (r: ArgRead)
    requires
        i < args@.len(),
    ensures
        read_is(r, read_ignored(views(args@), i as int)),
{
    let ghost a = views(args@);
    let ghost k = i as int;
    let r6 = ReadArg(args, i, "z");
    let r5 = match ReadArg(args, i, "build-id") {
        ArgRead::No => r6,
        other => other,
    };
    assert(read_is(
        r5,
        or_read(read_arg(a, k, "build-id".spec_bytes()), read_arg(a, k, "z".spec_bytes())),
    ));
    let r4 = match ReadArg(args, i, "hash-style") {
        ArgRead::No => r5,
        other => other,
    };
    let r3 = match ReadArg(args, i, "plugin-opt") {
        ArgRead::No => r4,
        other => other,
    };
    let r2 = match ReadArg(args, i, "plugin") {
        ArgRead::No => r3,
        other => other,
    };
    let r1 = match ReadArg(args, i, "sysroot") {
        ArgRead::No => r2,
        other => other,
    };
    match r1 {
        ArgRead::No => {
            if ReadFlag(args, i, "static") || ReadFlag(args, i, "s") || ReadFlag(
                args,
                i,
                "no-relax",
            ) || ReadFlag(args, i, "as-needed") || ReadFlag(args, i, "start-group") || ReadFlag(
                args,
                i,
                "end-group",
            ) {
                let empty: Vec<u8> = Vec::new();
                assert(empty@ =~= Seq::<u8>::empty());
                ArgRead::Value(empty, 1)
            } else {
                ArgRead::No
            }
        },
        other => other,
    }
}

/// What the context has taken from the arguments, with the inputs
/// `remaining`.
pub open spec fn arg_state(ctx: Context, remaining: Seq<Seq<u8>>) -> ArgState {
    ArgState {
        output: ctx.Args.Output@,
        emulation: ctx.Args.Emulation,
        paths: views(ctx.Args.LIbraryPaths@),
        remaining,
    }
}

/// What one step of reading the arguments did.
pub enum Step {
    Help,
    Version,
    Failed,
    /// The reading goes on so many arguments further.
    Next(usize),
}

/// Lets the argument at `i` do what it asks for.
#[verifier::rlimit(100)]
fn ParseOne(ctx: &mut Context, args: &Vec<Vec<u8>>, i: usize, remaining: &mut Vec<Vec<u8>>) -> (r: Step)
    requires
        old(ctx).wf(),
        i < args@.len(),
    ensures
        final(ctx).wf(),
        *final(ctx) == (Context { Args: final(ctx).Args, ..*old(ctx) }),
        match parse_step(
            views(args@),
            i as int,
            arg_state(*old(ctx), views(old(remaining)@)),
        ) {
            SpecStep::Help => r is Help,
            SpecStep::Version => r is Version,
            SpecStep::Failed => r is Failed,
            SpecStep::Next(st, n) => r matches Step::Next(c) && c == n && 1 <= n && i + n
                <= args@.len() && arg_state(*final(ctx), views(final(remaining)@)) == st,
        },
{
    let ghost a = views(args@);
    let ghost before = *ctx;
    let n: usize = args.len();
    proof {
        crate::linker::context::lemma_wf_frame(*ctx, *ctx);
    }
    if ReadFlag(args, i, "help") {
        return Step::Help;
    }
    let out = match ReadArg(args, i, "o") {
        ArgRead::No => ReadArg(args, i, "output"),
        other => other,
    };
    match out {
        ArgRead::Missing => {
            return Step::Failed;
        },
        ArgRead::Value(v, c) => {
            if c > n - i {
                return Step::Failed;
            }
            ctx.Args.Output = v;
            proof {
                crate::linker::context::lemma_wf_frame(before, *ctx);
            }
            return Step::Next(c);
        },
        ArgRead::No => {},
    }
    match ReadArg(args, i, "m") {
        ArgRead::Missing => {
            return Step::Failed;
        },
        ArgRead::Value(v, c) => {
            if !BytesEq(v.as_slice(), "elf64lriscv".as_bytes()) || c > n - i {
                return Step::Failed;
            }
            ctx.Args.Emulation = MachineType::MachineTypeRISCV64;
            proof {
                crate::linker::context::lemma_wf_frame(before, *ctx);
            }
            return Step::Next(c);
        },
        ArgRead::No => {},
    }
    match ReadArg(args, i, "L") {
        ArgRead::Missing => {
            return Step::Failed;
        },
        ArgRead::Value(v, c) => {
            if c > n - i {
                return Step::Failed;
            }
            ctx.Args.LIbraryPaths.push(v);
            proof {
                crate::linker::context::lemma_wf_frame(before, *ctx);
                assert(views(ctx.Args.LIbraryPaths@) =~= views(before.Args.LIbraryPaths@).push(
                    v@,
                ));
            }
            return Step::Next(c);
        },
        ArgRead::No => {},
    }
    match ReadArg(args, i, "l") {
        ArgRead::Missing => {
            return Step::Failed;
        },
        ArgRead::Value(v, c) => {
            if c > n - i {
                return Step::Failed;
            }
            let mut lib = Dashed("l".as_bytes(), false);
            let ghost head = lib@;
            let mut k: usize = 0;
            while k < v.len()
                invariant
                    k <= v@.len(),
                    lib@ == head + v@.subrange(0, k as int),
                decreases v@.len() - k,
            {
                lib.push(v[k]);
                assert(lib@ =~= head + v@.subrange(0, k + 1));
                k = k + 1;
            }
            assert(v@.subrange(0, v@.len() as int) =~= v@);
            let ghost prev = views(remaining@);
            remaining.push(lib);
            assert(views(remaining@) =~= prev.push(dashed("l".spec_bytes(), false) + v@));
            return Step::Next(c);
        },
        ArgRead::No => {},
    }
    match ReadIgnored(args, i) {
        ArgRead::Missing => {
            return Step::Failed;
        },
        ArgRead::Value(v, c) => {
            if c > n - i {
                return Step::Failed;
            }
            return Step::Next(c);
        },
        ArgRead::No => {},
    }
    if ReadFlag(args, i, "v") || ReadFlag(args, i, "version") {
        return Step::Version;
    }
    let dash: Vec<u8> = vec![0x2du8];
    assert(dash@ =~= seq![0x2du8]);
    assert(a[i as int] == args@[i as int]@);
    if StartsWith(args[i].as_slice(), dash.as_slice()) {
        return Step::Failed;
    }
    let ghost prev = views(remaining@);
    remaining.push(ToVec(args[i].as_slice()));
    assert(views(remaining@) =~= prev.push(a[i as int]));
    Step::Next(1)
}

/// Reads the arguments of the command line, the name of the program left
/// out, and sets what they ask for in the context: the output path, the
/// emulation and the search paths for libraries. Returns the inputs to
/// link, or that the arguments ask for help or for the version. An unknown
/// option, an option without its value and an emulation other than
/// `elf64lriscv` are errors of the command line.
pub fn parseArgs(ctx: &mut Context, args: &Vec<Vec<u8>>) -> (r: Result<Parsed, LinkError>)
    requires
        old(ctx).wf(),
    ensures
        final(ctx).wf(),
        *final(ctx) == (Context { Args: final(ctx).Args, ..*old(ctx) }),
        match parse_from(views(args@), 0, arg_state(*old(ctx), Seq::empty())) {
            SpecParsed::Help => r == Ok::<Parsed, LinkError>(Parsed::Help),
            SpecParsed::Version => r == Ok::<Parsed, LinkError>(Parsed::Version),
            SpecParsed::Failed => r == Err::<Parsed, LinkError>(LinkError::Cli),
            SpecParsed::Inputs(st) => r matches Ok(Parsed::Inputs(v)) && arg_state(
                *final(ctx),
                views(v@),
            ) == st,
        },
{
    let n: usize = args.len();
    let mut remaining: Vec<Vec<u8>> = Vec::new();
    let mut i: usize = 0;
    let ghost a = views(args@);
    let ghost st0 = arg_state(*ctx, Seq::empty());
    assert(views(remaining@) =~= Seq::<Seq<u8>>::empty());
    while i < n
        invariant
            i <= n,
            n == args@.len(),
            a == views(args@),
            a.len() == n,
            ctx.wf(),
            *ctx == (Context { Args: ctx.Args, ..*old(ctx) }),
            st0 == arg_state(*old(ctx), Seq::empty()),
            parse_from(a, 0, st0) == parse_from(a, i as int, arg_state(*ctx, views(remaining@))),
        decreases n - i,
    {
        match ParseOne(ctx, args, i, &mut remaining) {
            Step::Help => {
                return Ok(Parsed::Help);
            },
            Step::Version => {
                return Ok(Parsed::Version);
            },
            Step::Failed => {
                return Err(LinkError::Cli);
            },
            Step::Next(c) => {
                i = i + c;
            },
        }
    }
    Ok(Parsed::Inputs(remaining))
}

} // verus!
