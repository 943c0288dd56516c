use vstd::prelude::*;

use crate::text::str_equal;

verus! {

/// The values that `$NAME` expands to: each entry names a variable and holds
/// either its value or the message of the failed lookup.  A later entry for a
/// name overrides an earlier one.
pub struct Environment {
    pub vars: Vec<(String, Result<String, String>)>,
}

pub open spec fn result_view(r: Result<String, String>) -> Result<Seq<char>, Seq<char>> {
    match r {
        Ok(v) => Ok(v@),
        Err(e) => Err(e@),
    }
}

impl View for Environment {
    type V = Seq<(Seq<char>, Result<Seq<char>, Seq<char>>)>;

    open spec fn view(&self) -> Self::V {
        self.vars@.map_values(|e: (String, Result<String, String>)| (e.0@, result_view(e.1)))
    }
}

/// The message of a lookup of a variable that is not set.
pub open spec fn not_found_message() -> Seq<char> {
    "environment variable not found"@
}

/// What `$name` expands to in `env`: the last entry for `name`, or the
/// not-found message.
pub open spec fn env_lookup(env: Seq<(Seq<char>, Result<Seq<char>, Seq<char>>)>, name: Seq<char>) -> Result<Seq<char>, Seq<char>>
    decreases env.len(),
{
    if env.len() == 0 {
        Err(not_found_message())
    } else if env.last().0 == name {
        env.last().1
    } else {
        env_lookup(env.drop_last(), name)
    }
}

impl Environment {
    /// An environment in which no variable is set.
    pub fn new() -> (r: Environment)
        ensures
            r@ == Seq::<(Seq<char>, Result<Seq<char>, Seq<char>>)>::empty(),
    {
        let r = Environment { vars: Vec::new() };
        assert(r@ =~= Seq::<(Seq<char>, Result<Seq<char>, Seq<char>>)>::empty());
        r
    }

    /// Records the outcome of looking up `name`.
    pub fn define(&mut self, name: String, value: Result<String, String>)
        ensures
            final(self)@ == old(self)@.push((name@, result_view(value))),
    {
        self.vars.push((name, value));
        assert(final(self)@ =~= old(self)@.push((name@, result_view(value))));
    }

    /// Sets `name` to `value`.
    pub fn set(&mut self, name: &str, value: &str)
        ensures
            final(self)@ == old(self)@.push((name@, Ok::<Seq<char>, Seq<char>>(value@))),
    {
        self.define(String::from_str(name), Ok(String::from_str(value)));
    }

    /// What `$name` expands to.
    pub fn lookup(&self, name: &str) -> (r: Result<String, String>)
        ensures
            result_view(r) == env_lookup(self@, name@),
    {
        let mut i = self.vars.len();
        assert(self@.take(i as int) =~= self@);
        while i > 0
            invariant
                i <= self.vars.len(),
                env_lookup(self@, name@) == env_lookup(self@.take(i as int), name@),
            decreases i,
        {
            assert(self@.take(i as int).drop_last() == self@.take(i - 1));
            let entry = &self.vars[i - 1];
            if str_equal(entry.0.as_str(), name) {
                let value = match &entry.1 {
                    Ok(v) => Ok(v.clone()),
                    Err(e) => Err(e.clone()),
                };
                return value;
            }
            i = i - 1;
        }
        Err(String::from_str("environment variable not found"))
    }
}

} // verus!
