use vstd::prelude::*;
use vstd::string::StringExecFns;

verus! {

broadcast use vstd::std_specs::hash::group_hash_axioms;

/// The options that the engine offers over UCI.
#[derive(Clone, Copy, Debug, PartialEq, Eq, Hash, Structural)]
pub enum UciOptions {
    Example,
}

/// An ASCII letter in lower case; other characters unchanged.
pub open spec fn ascii_lower(c: char) -> char {
    if 'A' <= c && c <= 'Z' {
        ((c as u8) + 32) as char
    } else {
        c
    }
}

/// The name under which an option is offered.
pub open spec fn option_name(o: UciOptions) -> Seq<char> {
    match o {
        UciOptions::Example => seq!['E', 'x', 'a', 'm', 'p', 'l', 'e'],
    }
}

/// Whether `s` equals `name` when ASCII letters are compared without case.
pub open spec fn same_ignoring_case(s: Seq<char>, name: Seq<char>) -> bool {
    s.len() == name.len() && forall|i: int| 0 <= i < s.len() ==> ascii_lower(#[trigger] s[i]) == ascii_lower(name[i])
}

fn lower(c: char) -> (r: char)
    ensures
        r == ascii_lower(c),
{
    if 'A' <= c && c <= 'Z' {
        ((c as u8) + 32) as char
    } else {
        c
    }
}

impl UciOptions {
    /// The name under which this option is offered.
    pub fn name(&self) -> (r: String)
        ensures
            r@ == option_name(*self),
    {
        let mut s = String::new();
        match self {
            UciOptions::Example => {
                crate::text::push_char(&mut s, 'E');
                crate::text::push_char(&mut s, 'x');
                crate::text::push_char(&mut s, 'a');
                crate::text::push_char(&mut s, 'm');
                crate::text::push_char(&mut s, 'p');
                crate::text::push_char(&mut s, 'l');
                crate::text::push_char(&mut s, 'e');
            },
        }
        assert(s@ =~= option_name(*self));
        s
    }

    /// The option with the given name, letters compared without case.
    pub fn from_string(s: &str) -> (r: Option<UciOptions>)
        ensures
            r is Some <==> same_ignoring_case(s@, option_name(UciOptions::Example)),
            r is Some ==> r->0 == UciOptions::Example,
    {
        let name = UciOptions::Example.name();
        let n = s.unicode_len();
        let m = name.as_str().unicode_len();
        if n != m {
            return None;
        }
        let mut i: usize = 0;
        while i < n
            invariant
                n == s@.len(),
                n == name@.len(),
                name@ == option_name(UciOptions::Example),
                i <= n,
                forall|j: int| 0 <= j < i ==> ascii_lower(#[trigger] s@[j]) == ascii_lower(name@[j]),
            decreases n - i,
        {
            if lower(s.get_char(i)) != lower(name.as_str().get_char(i)) {
                return None;
            }
            i = i + 1;
        }
        Some(UciOptions::Example)
    }
}

/// What the UCI front end keeps between commands: whether debugging is on, the commands
/// still running, and the values given to options.
#[derive(Debug)]
pub struct GlobalState {
    pub debug: bool,
    command_counter: usize,
    commands_in_progress: std::collections::HashMap<usize, ()>,
    options: Vec<(UciOptions, String)>,
}

/// The value given to option `o` in a list of settings, if any.
pub open spec fn option_value(options: Seq<(UciOptions, String)>, o: UciOptions) -> Option<Seq<char>>
    decreases options.len(),
{
    if options.len() == 0 {
        None
    } else if options[0].0 == o {
        Some(options[0].1@)
    } else {
        option_value(options.drop_first(), o)
    }
}

impl GlobalState {
    /// Whether debugging is on.
    pub closed spec fn debug_on(&self) -> bool {
        self.debug
    }

    /// The number the next command gets.
    pub closed spec fn counter(&self) -> nat {
        self.command_counter as nat
    }

    /// The commands started and not yet ended.
    pub proof fn lemma_in_progress_finite(&self)
        ensures
            self.in_progress().finite(),
    {
    }

    pub closed spec fn in_progress(&self) -> Set<usize> {
        self.commands_in_progress@.dom()
    }

    /// The value given to option `o`, if any.
    pub closed spec fn value_of(&self, o: UciOptions) -> Option<Seq<char>> {
        option_value(self.options@, o)
    }

    pub fn new() -> (r: GlobalState)
        ensures
            !r.debug_on(),
            r.counter() == 0,
            r.in_progress() == Set::<usize>::empty(),
            forall|o: UciOptions| r.value_of(o) is None,
    {
        let r = GlobalState {
            debug: false,
            command_counter: 0,
            commands_in_progress: std::collections::HashMap::new(),
            options: Vec::new(),
        };
        r
    }

    /// Starts a command and returns its number.
    pub fn start_command(&mut self) -> (r: usize)
        requires
            old(self).counter() < usize::MAX,
        ensures
            r == old(self).counter(),
            final(self).counter() == old(self).counter() + 1,
            final(self).in_progress() == old(self).in_progress().insert(r),
            final(self).debug_on() == old(self).debug_on(),
            forall|o: UciOptions| final(self).value_of(o) == old(self).value_of(o),
    {
        let r = self.command_counter;
        self.commands_in_progress.insert(r, ());
        assert(self.commands_in_progress@.dom() =~= old(self).commands_in_progress@.dom().insert(r));
        self.command_counter = self.command_counter + 1;
        r
    }

    /// Ends a command.
    pub fn end_command(&mut self, command: usize)
        ensures
            final(self).in_progress() == old(self).in_progress().remove(command),
            final(self).counter() == old(self).counter(),
            final(self).debug_on() == old(self).debug_on(),
            forall|o: UciOptions| final(self).value_of(o) == old(self).value_of(o),
    {
        self.commands_in_progress.remove(&command);
        assert(self.commands_in_progress@.dom() =~= old(self).commands_in_progress@.dom().remove(command));
    }

    /// Whether no command is running.
    pub fn is_ready(&self) -> (r: bool)
        ensures
            r == (self.in_progress() == Set::<usize>::empty()),
    {
        proof {
            vstd::set_lib::lemma_set_empty_equivalency_len(self.commands_in_progress@.dom());
        }
        self.commands_in_progress.len() == 0
    }

    /// Gives option `option` the value `value`.
    pub fn set_option(&mut self, option: UciOptions, value: &str)
        ensures
            final(self).value_of(option) == Some(value@),
            forall|o: UciOptions| o != option ==> final(self).value_of(o) == old(self).value_of(o),
            final(self).in_progress() == old(self).in_progress(),
            final(self).counter() == old(self).counter(),
            final(self).debug_on() == old(self).debug_on(),
    {
        let mut v = String::new();
        v.append(value);
        self.unset_option(option);
        let mut options: Vec<(UciOptions, String)> = Vec::new();
        options.push((option, v));
        let mut i: usize = 0;
        while i < self.options.len()
            invariant
                i <= self.options@.len(),
                options@.len() == i + 1,
                options@[0] == (option, v),
            decreases self.options@.len() - i,
        {
            options.push((self.options[i].0, self.options[i].1.clone()));
            i = i + 1;
        }
        assert(v@ =~= value@);
        self.options = options;
    }

    /// Takes the value of option `option` away.
    pub fn unset_option(&mut self, option: UciOptions)
        ensures
            final(self).value_of(option) is None,
            forall|o: UciOptions| o != option ==> final(self).value_of(o) == old(self).value_of(o),
            final(self).in_progress() == old(self).in_progress(),
            final(self).counter() == old(self).counter(),
            final(self).debug_on() == old(self).debug_on(),
    {
        let mut kept: Vec<(UciOptions, String)> = Vec::new();
        let mut i: usize = 0;
        while i < self.options.len()
            invariant
                i <= self.options@.len(),
                forall|j: int| 0 <= j < kept@.len() ==> (#[trigger] kept@[j]).0 != option,
            decreases self.options@.len() - i,
        {
            if self.options[i].0 != option {
                kept.push((self.options[i].0, self.options[i].1.clone()));
            }
            i = i + 1;
        }
        proof {
            lemma_absent_has_no_value(kept@, option);
        }
        self.options = kept;
    }

    /// Gives the option named `option` the value `value`; an unknown name is refused.
    pub fn set_option_named(&mut self, option: &str, value: &str) -> (r: Result<UciOptions, ()>)
        ensures
            r is Ok <==> UciOptions::from_string_spec(option@) is Some,
            r is Ok ==> final(self).value_of(r->Ok_0) == Some(value@),
            r is Err ==> *final(self) == *old(self),
    {
        match UciOptions::from_string(option) {
            Some(o) => {
                self.set_option(o, value);
                Ok(o)
            },
            None => Err(()),
        }
    }

    /// Takes away the value of the option named `option`; an unknown name is refused.
    pub fn unset_option_named(&mut self, option: &str) -> (r: Result<UciOptions, ()>)
        ensures
            r is Ok <==> UciOptions::from_string_spec(option@) is Some,
            r is Ok ==> final(self).value_of(r->Ok_0) is None,
            r is Err ==> *final(self) == *old(self),
    {
        match UciOptions::from_string(option) {
            Some(o) => {
                self.unset_option(o);
                Ok(o)
            },
            None => Err(()),
        }
    }

    /// The value of option `option`, if it has one.
    pub fn get_option(&self, option: UciOptions) -> (r: Option<String>)
        ensures
            r is Some <==> self.value_of(option) is Some,
            r is Some ==> r->0@ == self.value_of(option)->0,
    {
        let mut i: usize = 0;
        while i < self.options.len()
            invariant
                i <= self.options@.len(),
                option_value(self.options@, option) == option_value(self.options@.subrange(i as int, self.options@.len() as int), option),
            decreases self.options@.len() - i,
        {
            let ghost rest = self.options@.subrange(i as int, self.options@.len() as int);
            if self.options[i].0 == option {
                return Some(self.options[i].1.clone());
            }
            assert(rest.drop_first() =~= self.options@.subrange(i + 1, self.options@.len() as int));
            i = i + 1;
        }
        None
    }
}

impl UciOptions {
    /// The option that a name names, letters compared without case.
    pub open spec fn from_string_spec(s: Seq<char>) -> Option<UciOptions> {
        if same_ignoring_case(s, option_name(UciOptions::Example)) {
            Some(UciOptions::Example)
        } else {
            None
        }
    }
}

impl Default for GlobalState {
    fn default() -> (r: GlobalState)
        ensures
            !r.debug_on(),
            r.counter() == 0,
            r.in_progress() == Set::<usize>::empty(),
            forall|o: UciOptions| r.value_of(o) is None,
    {
        GlobalState::new()
    }
}

/// A list of settings with no entry for `o` gives it no value.
proof fn lemma_absent_has_no_value(options: Seq<(UciOptions, String)>, o: UciOptions)
    requires
        forall|j: int| 0 <= j < options.len() ==> (#[trigger] options[j]).0 != o,
    ensures
        option_value(options, o) is None,
    decreases options.len(),
{
    if options.len() > 0 {
        assert forall|j: int| 0 <= j < options.drop_first().len() implies (#[trigger] options.drop_first()[j]).0 != o by {
            assert(options.drop_first()[j] == options[j + 1]);
        }
        lemma_absent_has_no_value(options.drop_first(), o);
    }
}

} // verus!
