//! The identity of a service unit and the names derived from it.

use crate::outside::string_of;
use crate::text::{chars_of, find_from, position, slice_of};
use vstd::prelude::*;

verus! {

/// The name under which this tool signs the files and directories it makes.
pub const TOOL_NAME: &'static str = "shh";

/// The kind of the fragment that wraps the start commands with the tracer.
pub const PROFILING_FRAGMENT_NAME: &'static str = "profile";

/// The kind of the fragment that installs the hardening options.
pub const HARDENING_FRAGMENT_NAME: &'static str = "harden";

/// What a `Service` stands for: a unit's base name and, for an instance of a
/// template, the instance argument.
pub struct UnitId {
    pub name: Seq<char>,
    pub arg: Option<Seq<char>>,
}

/// A service unit, plain or an instance of a template.
pub struct Service {
    name: String,
    arg: Option<String>,
}

impl View for Service {
    type V = UnitId;

    closed spec fn view(&self) -> UnitId {
        UnitId {
            name: self.name@,
            arg: match self.arg {
                Some(a) => Some(a@),
                None => None,
            },
        }
    }
}

/// The unit that a token names: split at the first `@`, if it has one.
pub open spec fn parse_unit(unit: Seq<char>) -> UnitId {
    let at = position(unit, '@');
    if at < unit.len() {
        UnitId { name: unit.take(at), arg: Some(unit.skip(at + 1)) }
    } else {
        UnitId { name: unit, arg: None }
    }
}

/// The file name of the unit: `name.service`, or `name@arg.service`.
pub open spec fn unit_file_name(id: UnitId) -> Seq<char> {
    match id.arg {
        Some(arg) => id.name + "@"@ + arg + ".service"@,
        None => id.name + ".service"@,
    }
}

/// The directory that holds the unit's drop-in fragments: `name.service.d`,
/// or `name@.service.d` for every instance of the template `name@`.
pub open spec fn fragment_dir_name(id: UnitId) -> Seq<char> {
    match id.arg {
        Some(_) => id.name + "@"@ + ".service.d"@,
        None => id.name + ".service.d"@,
    }
}

/// The file name of a fragment of the given kind. The leading `zz_` makes it
/// sort after the fragments of others, so that its directives win.
pub open spec fn fragment_file_name(kind: Seq<char>) -> Seq<char> {
    "zz_"@ + TOOL_NAME@ + "-"@ + kind + ".conf"@
}

/// The tree in which a fragment lives: `/etc` if it is to persist, `/run` if
/// it is to vanish with the next boot.
pub open spec fn fragment_tree(persistent: bool) -> Seq<char> {
    if persistent {
        "/etc"@
    } else {
        "/run"@
    }
}

/// The path of the unit's fragment of the given kind.
pub open spec fn fragment_path_of(id: UnitId, kind: Seq<char>, persistent: bool) -> Seq<char> {
    fragment_tree(persistent) + "/systemd/system/"@ + fragment_dir_name(id) + "/"@
        + fragment_file_name(kind)
}

impl Service {
    /// The unit that `unit` names.
    pub fn new(unit: &str) -> (service: Service)
        ensures
            service@ == parse_unit(unit@),
    {
        let chars = chars_of(unit);
        let at = find_from(&chars, 0, '@');
        assert(chars@.skip(0) =~= chars@);
        if at < chars.len() {
            let name = slice_of(&chars, 0, at);
            let arg = slice_of(&chars, at + 1, chars.len());
            assert(arg@ =~= unit@.skip(at + 1));
            assert(name@ =~= unit@.take(at as int));
            Service { name: string_of(&name), arg: Some(string_of(&arg)) }
        } else {
            Service { name: String::from_str(unit), arg: None }
        }
    }

    /// The file name of the unit.
    pub fn unit_name(&self) -> (file: String)
        ensures
            file@ == unit_file_name(self@),
    {
        let mut file = self.name.clone();
        match &self.arg {
            Some(arg) => {
                file.append("@");
                file.append(arg.as_str());
            },
            None => {},
        }
        file.append(".service");
        file
    }

    /// The path of the unit's fragment of kind `name`, in the persistent or in
    /// the transient tree.
    pub fn fragment_path(&self, name: &str, persistent: bool) -> (path: String)
        ensures
            path@ == fragment_path_of(self@, name@, persistent),
    {
        let mut path = String::from_str(
            if persistent {
                "/etc"
            } else {
                "/run"
            },
        );
        path.append("/systemd/system/");
        path.append(self.name.as_str());
        if self.arg.is_some() {
            path.append("@");
        }
        path.append(".service.d");
        path.append("/");
        path.append("zz_");
        path.append(TOOL_NAME);
        path.append("-");
        path.append(name);
        path.append(".conf");
        proof {
            let id = self@;
            let dir = fragment_dir_name(id);
            let file = fragment_file_name(name@);
            assert(path@ =~= fragment_tree(persistent) + "/systemd/system/"@ + dir + "/"@ + file);
        }
        path
    }
}

/// Naming the unit that a token denotes gives the token back, with the
/// suffix of service units.
pub proof fn lemma_unit_name_of_token(unit: Seq<char>)
    ensures
        unit_file_name(parse_unit(unit)) == unit + ".service"@,
{
    let at = position(unit, '@');
    crate::text::lemma_run_length(unit, crate::text::other_than('@'));
    if at < unit.len() {
        reveal_strlit("@");
        assert("@"@ =~= seq!['@']);
        assert(unit.take(at) + "@"@ + unit.skip(at + 1) =~= unit);
    }
}

} // verus!
