//! The OS-level "immutable" attribute of a file, as a bit of its inode flags.
use vstd::prelude::*;
use crate::errors::Result;

verus! {

/// The bit of the inode flags that marks a file immutable.
pub const IMMUTABLE_FLAG_BIT: i32 = 0x10;

/// A single inode flag.
#[derive(Debug, Clone, Copy, PartialEq, Eq, Structural)]
pub enum UnixFileFlag {
    Immutable,
}

impl UnixFileFlag {
    pub open spec fn spec_bits(self) -> i32 {
        match self {
            UnixFileFlag::Immutable => IMMUTABLE_FLAG_BIT,
        }
    }

    /// The flag's bit.
    pub fn bits(self) -> (r: i32)
        ensures
            r == self.spec_bits(),
    {
        match self {
            UnixFileFlag::Immutable => IMMUTABLE_FLAG_BIT,
        }
    }
}

/// The inode flags of a file.
#[derive(Debug, Clone, Copy, PartialEq, Eq, Structural)]
pub struct UnixFileFlags {
    pub value: i32,
}

impl UnixFileFlags {
    pub fn new(value: i32) -> (r: UnixFileFlags)
        ensures
            r.value == value,
    {
        UnixFileFlags { value }
    }

    pub open spec fn spec_is_set(&self, flag: UnixFileFlag) -> bool {
        self.value & flag.spec_bits() != 0
    }

    pub fn is_flag_set(&self, flag: UnixFileFlag) -> (r: bool)
        ensures
            r == self.spec_is_set(flag),
    {
        self.value & flag.bits() != 0
    }

    pub fn set_flag(&mut self, flag: UnixFileFlag)
        ensures
            final(self).value == old(self).value | flag.spec_bits(),
    {
        self.value = self.value | flag.bits();
    }

    pub fn unset_flag(&mut self, flag: UnixFileFlag)
        ensures
            final(self).value == old(self).value & !flag.spec_bits(),
    {
        self.value = self.value & !flag.bits();
    }
}

/// The flags to set to make a file with `flags` mutable, or `None` where it
/// already is.
pub fn mutable_flags(flags: UnixFileFlags) -> (r: Option<UnixFileFlags>)
    ensures
        flags.spec_is_set(UnixFileFlag::Immutable) ==> r == Some(UnixFileFlags { value: flags.value & !IMMUTABLE_FLAG_BIT }),
        !flags.spec_is_set(UnixFileFlag::Immutable) ==> r is None,
{
    let mut flags = flags;
    if flags.is_flag_set(UnixFileFlag::Immutable) {
        flags.unset_flag(UnixFileFlag::Immutable);
        Some(flags)
    } else {
        None
    }
}

/// The flags to set to make a file with `flags` immutable, or `None` where it
/// already is.
pub fn immutable_flags(flags: UnixFileFlags) -> (r: Option<UnixFileFlags>)
    ensures
        !flags.spec_is_set(UnixFileFlag::Immutable) ==> r == Some(UnixFileFlags { value: flags.value | IMMUTABLE_FLAG_BIT }),
        flags.spec_is_set(UnixFileFlag::Immutable) ==> r is None,
{
    let mut flags = flags;
    if !flags.is_flag_set(UnixFileFlag::Immutable) {
        flags.set_flag(UnixFileFlag::Immutable);
        Some(flags)
    } else {
        None
    }
}

/// Making a mutable file immutable and then mutable again gives back exactly
/// the flags it started with.
pub proof fn lemma_immutable_then_mutable(flags: UnixFileFlags)
    requires
        !flags.spec_is_set(UnixFileFlag::Immutable),
    ensures
        ({
            let locked = UnixFileFlags { value: flags.value | IMMUTABLE_FLAG_BIT };
            &&& locked.spec_is_set(UnixFileFlag::Immutable)
            &&& (UnixFileFlags { value: locked.value & !IMMUTABLE_FLAG_BIT }) == flags
        }),
{
    let v = flags.value;
    assert(v & 0x10 == 0 ==> (v | 0x10) & 0x10 != 0 && ((v | 0x10) & !0x10i32) == v) by (bit_vector);
}

/// Access to a file's inode flags, provided by the platform layer.
pub trait UnixFile {
    fn get_unix_flags(&self) -> Result<UnixFileFlags>;

    fn set_unix_flags(&mut self, new_flags: UnixFileFlags) -> Result<()>;
}

/// Switching the immutable attribute on and off.
pub trait MutableFile {
    /// Clears the immutable bit where it is set; does nothing otherwise.
    fn make_mutable(&mut self) -> Result<()>;

    /// Sets the immutable bit where it is clear; does nothing otherwise.
    fn make_immutable(&mut self) -> Result<()>;
}

impl<T: UnixFile> MutableFile for T {
    fn make_mutable(&mut self) -> Result<()> {
        let flags = self.get_unix_flags()?;
        match mutable_flags(flags) {
            Some(new_flags) => self.set_unix_flags(new_flags),
            None => Ok(()),
        }
    }

    fn make_immutable(&mut self) -> Result<()> {
        let flags = self.get_unix_flags()?;
        match immutable_flags(flags) {
            Some(new_flags) => self.set_unix_flags(new_flags),
            None => Ok(()),
        }
    }
}

} // verus!
