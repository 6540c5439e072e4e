//! What a command line asks for.

use crate::token::{parse_size, size_named, Mode};
use vstd::prelude::*;

verus! {

/// One resize: where the image comes from, where it goes, and how.
#[derive(Debug, PartialEq, Eq)]
pub struct Request {
    pub input: String,
    pub output: String,
    pub target_w: u32,
    pub target_h: u32,
    pub mode: Mode,
}

/// The target size that a token asks for: 1280 by 720 where there is no
/// token or it names no size.
pub open spec fn size_or_default(token: Option<Seq<char>>) -> (u32, u32) {
    match token {
        Some(text) => match size_named(text) {
            Some(size) => size,
            None => (1280u32, 720u32),
        },
        None => (1280u32, 720u32),
    }
}

/// The mode that a token asks for: `Fit` where there is no token or it
/// names no mode.
pub open spec fn mode_or_default(token: Option<Seq<char>>) -> Mode {
    match token {
        Some(text) => match Mode::named(text) {
            Some(mode) => mode,
            None => Mode::Fit,
        },
        None => Mode::Fit,
    }
}

/// The argument at `at`, if there is one.
pub open spec fn token_at(args: Seq<String>, at: int) -> Option<Seq<char>> {
    if 0 <= at < args.len() {
        Some(args[at]@)
    } else {
        None
    }
}

impl Request {
    /// Reads the arguments of the program, its own name first: the input
    /// path, the output path, then a size and a mode that may be left out.
    /// With fewer than two paths there is nothing to do, and the caller
    /// shows how the program is used.
    pub fn from_args(args: &Vec<String>) -> (r: Option<Request>)
        ensures
            r is None <==> args@.len() < 3,
            r matches Some(request) ==> {
                &&& request.input@ == args@[1]@
                &&& request.output@ == args@[2]@
                &&& (request.target_w, request.target_h) == size_or_default(token_at(args@, 3))
                &&& request.mode == mode_or_default(token_at(args@, 4))
                &&& request.target_w > 0
                &&& request.target_h > 0
            },
    {
        if args.len() < 3 {
            return None;
        }
        let size = if args.len() > 3 {
            parse_size(args[3].as_str())
        } else {
            None
        };
        let (target_w, target_h) = match size {
            Some(size) => size,
            None => (1280, 720),
        };
        let mode = if args.len() > 4 {
            Mode::parse(args[4].as_str())
        } else {
            None
        };
        let mode = match mode {
            Some(mode) => mode,
            None => Mode::Fit,
        };
        Some(Request { input: args[1].clone(), output: args[2].clone(), target_w, target_h, mode })
    }
}

} // verus!
