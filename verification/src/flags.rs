//! The flags that a line marker may carry.

use vstd::prelude::*;

verus! {

/// One flag of a line marker.
#[derive(Clone, Copy, Debug, PartialEq, Eq, Structural)]
pub enum Flag {
    /// The marker enters a file that was pulled in.
    StartNewFile,
    /// The marker resumes the enclosing file.
    ReturnToFile,
    /// The file is a system header.
    SystemHeader,
    /// The file's text is wrapped in an `extern "C"` block.
    WrappedInExternC,
}

/// The token did not name a flag.
#[derive(Clone, Copy, Debug, PartialEq, Eq, Structural)]
pub struct UnrecognizedFlagError;

/// The flag that a token stands for: the tokens are the single digits `1` to `4`.
pub open spec fn flag_of_token(token: Seq<char>) -> Option<Flag> {
    if token.len() != 1 {
        None
    } else if token[0] == '1' {
        Some(Flag::StartNewFile)
    } else if token[0] == '2' {
        Some(Flag::ReturnToFile)
    } else if token[0] == '3' {
        Some(Flag::SystemHeader)
    } else if token[0] == '4' {
        Some(Flag::WrappedInExternC)
    } else {
        None
    }
}

impl Flag {
    /// Reads a flag from its token.
    pub fn from_str(s: &str) -> (r: Result<Flag, UnrecognizedFlagError>)
        ensures
            r == match flag_of_token(s@) {
                Some(f) => Ok::<Flag, UnrecognizedFlagError>(f),
                None => Err(UnrecognizedFlagError),
            },
    {
        if s.unicode_len() != 1 {
            return Err(UnrecognizedFlagError);
        }
        let c = s.get_char(0);
        if c == '1' {
            Ok(Flag::StartNewFile)
        } else if c == '2' {
            Ok(Flag::ReturnToFile)
        } else if c == '3' {
            Ok(Flag::SystemHeader)
        } else if c == '4' {
            Ok(Flag::WrappedInExternC)
        } else {
            Err(UnrecognizedFlagError)
        }
    }
}

/// The flags of one line marker: a set, in which neither the order nor the
/// number of times a flag was written counts.
#[derive(Clone, Copy, Debug, PartialEq, Eq, Structural)]
pub struct FlagSet {
    start_new_file: bool,
    return_to_file: bool,
    system_header: bool,
    wrapped_in_extern_c: bool,
}

impl View for FlagSet {
    type V = Set<Flag>;

    open spec fn view(&self) -> Set<Flag> {
        Set::new(|flag: Flag| self.has(flag))
    }
}

impl FlagSet {
    /// Whether `flag` is in the set.
    pub closed spec fn has(&self, flag: Flag) -> bool {
        match flag {
            Flag::StartNewFile => self.start_new_file,
            Flag::ReturnToFile => self.return_to_file,
            Flag::SystemHeader => self.system_header,
            Flag::WrappedInExternC => self.wrapped_in_extern_c,
        }
    }

    /// The set without any flag.
    pub fn new() -> (set: FlagSet)
        ensures
            set@ == Set::<Flag>::empty(),
    {
        let set = FlagSet {
            start_new_file: false,
            return_to_file: false,
            system_header: false,
            wrapped_in_extern_c: false,
        };
        assert(set@ =~= Set::<Flag>::empty());
        set
    }

    /// Puts `flag` into the set; a flag that is in it already stays.
    pub fn insert(&mut self, flag: Flag)
        ensures
            final(self)@ == old(self)@.insert(flag),
    {
        match flag {
            Flag::StartNewFile => {
                self.start_new_file = true;
            },
            Flag::ReturnToFile => {
                self.return_to_file = true;
            },
            Flag::SystemHeader => {
                self.system_header = true;
            },
            Flag::WrappedInExternC => {
                self.wrapped_in_extern_c = true;
            },
        }
        assert(self@ =~= old(self)@.insert(flag));
    }

    /// Whether `flag` is in the set.
    pub fn contains(&self, flag: Flag) -> (b: bool)
        ensures
            b == self@.contains(flag),
    {
        match flag {
            Flag::StartNewFile => self.start_new_file,
            Flag::ReturnToFile => self.return_to_file,
            Flag::SystemHeader => self.system_header,
            Flag::WrappedInExternC => self.wrapped_in_extern_c,
        }
    }

    /// How many flags are in the set.
    pub fn len(&self) -> (n: usize)
        ensures
            n == self@.len(),
            self@.finite(),
    {
        let mut n: usize = 0;
        let ghost mut seen: Set<Flag> = Set::empty();
        if self.start_new_file {
            n += 1;
            proof {
                seen = seen.insert(Flag::StartNewFile);
            }
        }
        if self.return_to_file {
            n += 1;
            proof {
                seen = seen.insert(Flag::ReturnToFile);
            }
        }
        if self.system_header {
            n += 1;
            proof {
                seen = seen.insert(Flag::SystemHeader);
            }
        }
        if self.wrapped_in_extern_c {
            n += 1;
            proof {
                seen = seen.insert(Flag::WrappedInExternC);
            }
        }
        assert(seen =~= self@);
        n
    }
}

} // verus!
