//! Decoding of command arguments: which store operation a `list`, `get`,
//! `set` or `del` invocation selects, on which key, with which value, and on
//! which file, or which usage error to report.

use vstd::prelude::*;

use crate::entry::opt_view;
use crate::text::str_eq;

verus! {

/// What a `list` invocation prints: bare keys, or `key=value` pairs.
#[derive(Debug, Clone, PartialEq)]
pub enum ListMode {
    Keys,
    Values,
}

/// What a `get`, `set` or `del` invocation addresses: a key's value, a
/// key's comment, or the header.
#[derive(Debug, Clone, PartialEq)]
pub enum Target {
    Key(String),
    Comment(String),
    Header,
}

/// A usage error: which required argument an invocation lacks.
#[derive(Debug, Clone, PartialEq)]
pub enum ArgError {
    MissingGetTarget,
    MissingKeyName,
    MissingSetTarget,
    MissingHeaderValue,
    MissingKeyAndValue,
    MissingValue,
}

/// The argument at position `i`, if one was given.
pub open spec fn arg_at(a: Seq<String>, i: int) -> Option<Seq<char>> {
    if 0 <= i < a.len() {
        Some(a[i]@)
    } else {
        None
    }
}

/// The optional trailing file argument at position `i`.
fn arg_opt(args: &Vec<String>, i: usize) -> (r: Option<String>)
    ensures
        opt_view(r) == arg_at(args@, i as int),
{
    if i < args.len() {
        Some(args[i].clone())
    } else {
        None
    }
}

/// Which list mode and file a `list` invocation selects: a leading `keys`
/// or `values` word picks the mode, anything else is the file, and the mode
/// defaults to values.
pub fn parse_list_args(args: &Vec<String>) -> (r: (ListMode, Option<String>))
    ensures
        args@.len() == 0 ==> r.0 == ListMode::Values && opt_view(r.1) is None,
        args@.len() > 0 && args@[0]@ == ("keys")@ ==> r.0 == ListMode::Keys && opt_view(r.1)
            == arg_at(args@, 1),
        args@.len() > 0 && args@[0]@ == ("values")@ ==> r.0 == ListMode::Values && opt_view(r.1)
            == arg_at(args@, 1),
        args@.len() > 0 && args@[0]@ != ("keys")@ && args@[0]@ != ("values")@ ==> r.0
            == ListMode::Values && opt_view(r.1) == Some(args@[0]@),
{
    proof {
        reveal_strlit("keys");
        reveal_strlit("values");
        assert(("keys")@.len() == 4);
        assert(("values")@.len() == 6);
    }
    if args.len() == 0 {
        return (ListMode::Values, None);
    }
    if str_eq(args[0].as_str(), "keys") {
        (ListMode::Keys, arg_opt(args, 1))
    } else if str_eq(args[0].as_str(), "values") {
        (ListMode::Values, arg_opt(args, 1))
    } else {
        (ListMode::Values, Some(args[0].clone()))
    }
}

/// Which target and file a `get` or `del` invocation selects: a leading
/// `header`, `comment` or `key` word picks the target (`comment` and `key`
/// then need the key's name), and a bare first argument is itself the key.
pub fn parse_get_del_args(args: &Vec<String>) -> (r: Result<(Target, Option<String>), ArgError>)
    ensures
        args@.len() == 0 ==> r == Err::<(Target, Option<String>), ArgError>(
            ArgError::MissingGetTarget,
        ),
        args@.len() > 0 && args@[0]@ == ("header")@ ==> (r matches Ok(t) && t.0 == Target::Header
            && opt_view(t.1) == arg_at(args@, 1)),
        args@.len() > 0 && args@[0]@ == ("comment")@ ==> (if args@.len() < 2 {
            r == Err::<(Target, Option<String>), ArgError>(ArgError::MissingKeyName)
        } else {
            r matches Ok(t) && (t.0 matches Target::Comment(k) && k@ == args@[1]@) && opt_view(t.1)
                == arg_at(args@, 2)
        }),
        args@.len() > 0 && args@[0]@ == ("key")@ ==> (if args@.len() < 2 {
            r == Err::<(Target, Option<String>), ArgError>(ArgError::MissingKeyName)
        } else {
            r matches Ok(t) && (t.0 matches Target::Key(k) && k@ == args@[1]@) && opt_view(t.1)
                == arg_at(args@, 2)
        }),
        args@.len() > 0 && args@[0]@ != ("header")@ && args@[0]@ != ("comment")@ && args@[0]@ != (
        "key")@ ==> (r matches Ok(t) && (t.0 matches Target::Key(k) && k@ == args@[0]@) && opt_view(
            t.1,
        ) == arg_at(args@, 1)),
{
    proof {
        reveal_strlit("header");
        reveal_strlit("comment");
        reveal_strlit("key");
        assert(("header")@.len() == 6);
        assert(("comment")@.len() == 7);
        assert(("key")@.len() == 3);
    }
    if args.len() == 0 {
        return Err(ArgError::MissingGetTarget);
    }
    if str_eq(args[0].as_str(), "header") {
        Ok((Target::Header, arg_opt(args, 1)))
    } else if str_eq(args[0].as_str(), "comment") {
        if args.len() < 2 {
            return Err(ArgError::MissingKeyName);
        }
        Ok((Target::Comment(args[1].clone()), arg_opt(args, 2)))
    } else if str_eq(args[0].as_str(), "key") {
        if args.len() < 2 {
            return Err(ArgError::MissingKeyName);
        }
        Ok((Target::Key(args[1].clone()), arg_opt(args, 2)))
    } else {
        Ok((Target::Key(args[0].clone()), arg_opt(args, 1)))
    }
}

/// Which target, new text and file a `set` invocation selects: a leading
/// `header` word takes the header text; `comment` and `key` take the key's
/// name and the new text; a bare first argument is the key, followed by the
/// new value.
pub fn parse_set_args(args: &Vec<String>) -> (r: Result<
    (Target, String, Option<String>),
    ArgError,
>)
    ensures
        args@.len() == 0 ==> r == Err::<(Target, String, Option<String>), ArgError>(
            ArgError::MissingSetTarget,
        ),
        args@.len() > 0 && args@[0]@ == ("header")@ ==> (if args@.len() < 2 {
            r == Err::<(Target, String, Option<String>), ArgError>(ArgError::MissingHeaderValue)
        } else {
            r matches Ok(t) && t.0 == Target::Header && t.1@ == args@[1]@ && opt_view(t.2)
                == arg_at(args@, 2)
        }),
        args@.len() > 0 && args@[0]@ == ("comment")@ ==> (if args@.len() < 3 {
            r == Err::<(Target, String, Option<String>), ArgError>(ArgError::MissingKeyAndValue)
        } else {
            r matches Ok(t) && (t.0 matches Target::Comment(k) && k@ == args@[1]@) && t.1@
                == args@[2]@ && opt_view(t.2) == arg_at(args@, 3)
        }),
        args@.len() > 0 && args@[0]@ == ("key")@ ==> (if args@.len() < 3 {
            r == Err::<(Target, String, Option<String>), ArgError>(ArgError::MissingKeyAndValue)
        } else {
            r matches Ok(t) && (t.0 matches Target::Key(k) && k@ == args@[1]@) && t.1@ == args@[2]@
                && opt_view(t.2) == arg_at(args@, 3)
        }),
        args@.len() > 0 && args@[0]@ != ("header")@ && args@[0]@ != ("comment")@ && args@[0]@ != (
        "key")@ ==> (if args@.len() < 2 {
            r == Err::<(Target, String, Option<String>), ArgError>(ArgError::MissingValue)
        } else {
            r matches Ok(t) && (t.0 matches Target::Key(k) && k@ == args@[0]@) && t.1@ == args@[1]@
                && opt_view(t.2) == arg_at(args@, 2)
        }),
{
    proof {
        reveal_strlit("header");
        reveal_strlit("comment");
        reveal_strlit("key");
        assert(("header")@.len() == 6);
        assert(("comment")@.len() == 7);
        assert(("key")@.len() == 3);
    }
    if args.len() == 0 {
        return Err(ArgError::MissingSetTarget);
    }
    if str_eq(args[0].as_str(), "header") {
        if args.len() < 2 {
            return Err(ArgError::MissingHeaderValue);
        }
        Ok((Target::Header, args[1].clone(), arg_opt(args, 2)))
    } else if str_eq(args[0].as_str(), "comment") {
        if args.len() < 3 {
            return Err(ArgError::MissingKeyAndValue);
        }
        Ok((Target::Comment(args[1].clone()), args[2].clone(), arg_opt(args, 3)))
    } else if str_eq(args[0].as_str(), "key") {
        if args.len() < 3 {
            return Err(ArgError::MissingKeyAndValue);
        }
        Ok((Target::Key(args[1].clone()), args[2].clone(), arg_opt(args, 3)))
    } else {
        if args.len() < 2 {
            return Err(ArgError::MissingValue);
        }
        Ok((Target::Key(args[0].clone()), args[1].clone(), arg_opt(args, 2)))
    }
}

} // verus!

