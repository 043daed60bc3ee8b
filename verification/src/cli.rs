//! Command line: `weighflow [--config PATH] [--port DEVICE] [DEVICE]`.
use vstd::prelude::*;

verus! {

/// The text of an optional string.
pub open spec fn opt_text(o: Option<String>) -> Option<Seq<char>> {
    match o {
        Some(s) => Some(s@),
        None => None,
    }
}

/// `a` starts with '-' (its first UTF-8 byte).
pub open spec fn starts_with_dash(a: Seq<char>) -> bool {
    let b = vstd::utf8::encode_utf8(a);
    b.len() > 0 && b[0] == 45
}

/// (config path, port) after reading `args` from index `i` on, with the
/// values found so far. `--config X` and `--port X` set their value (a flag
/// at the end sets nothing); the first argument not starting with '-' sets
/// the port when none is set yet; anything else is ignored.
pub open spec fn args_from(
    args: Seq<String>,
    i: int,
    config: Option<Seq<char>>,
    port: Option<Seq<char>>,
) -> (Option<Seq<char>>, Option<Seq<char>>)
    decreases args.len() - i,
{
    if i < 0 || i >= args.len() {
        (config, port)
    } else {
        let a = args[i]@;
        if a == "--config"@ {
            if i + 1 < args.len() {
                args_from(args, i + 2, Some(args[i + 1]@), port)
            } else {
                (config, port)
            }
        } else if a == "--port"@ {
            if i + 1 < args.len() {
                args_from(args, i + 2, config, Some(args[i + 1]@))
            } else {
                (config, port)
            }
        } else if !starts_with_dash(a) && port is None {
            args_from(args, i + 1, config, Some(a))
        } else {
            args_from(args, i + 1, config, port)
        }
    }
}

/// (config path, port) given on the command line (`args` without the program name).
pub fn parse_args(args: &Vec<String>) -> (r: (Option<String>, Option<String>))
    ensures
        (opt_text(r.0), opt_text(r.1)) == args_from(args@, 0, None, None),
{
    let mut config_path: Option<String> = None;
    let mut port: Option<String> = None;
    let mut i: usize = 0;
    let config_flag = "--config".to_owned();
    let port_flag = "--port".to_owned();
    while i < args.len()
        invariant
            config_flag@ == "--config"@,
            port_flag@ == "--port"@,
            i <= args@.len(),
            args_from(args@, 0, None, None) == args_from(
                args@,
                i as int,
                opt_text(config_path),
                opt_text(port),
            ),
        decreases args@.len() - i,
    {
        let a = &args[i];
        if *a == config_flag {
            if i + 1 < args.len() {
                config_path = Some(args[i + 1].clone());
                i += 2;
            } else {
                i = args.len();
            }
        } else if *a == port_flag {
            if i + 1 < args.len() {
                port = Some(args[i + 1].clone());
                i += 2;
            } else {
                i = args.len();
            }
        } else {
            let bytes = a.as_str().as_bytes();
            let dash = bytes.len() > 0 && bytes[0] == 45;
            if !dash && port.is_none() {
                port = Some(a.clone());
            }
            i += 1;
        }
    }
    (config_path, port)
}

} // verus!
