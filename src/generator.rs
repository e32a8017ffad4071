//! Password generation from a dictionary of character classes.
use vstd::prelude::*;
use crate::errors::{ErrorKind, Result};
use crate::random::random_index;

verus! {

pub const DEFAULT_PASSWORD_LENGTH: usize = 20;

/// Which character classes a generated password draws from, and its length.
pub struct PasswordGeneratorOptions {
    pub password_length: usize,
    pub use_lowercase: bool,
    pub use_uppercase: bool,
    pub use_digits: bool,
    pub use_symbols: bool,
}

pub open spec fn lowercase_alphabet() -> Seq<char> {
    seq!['a', 'b', 'c', 'd', 'e', 'f', 'g', 'h', 'i', 'j', 'k', 'l', 'm', 'n', 'o', 'p', 'q', 'r',
        's', 't', 'u', 'v', 'w', 'x', 'y', 'z']
}

pub open spec fn uppercase_alphabet() -> Seq<char> {
    seq!['A', 'B', 'C', 'D', 'E', 'F', 'G', 'H', 'I', 'J', 'K', 'L', 'M', 'N', 'O', 'P', 'Q', 'R',
        'S', 'T', 'U', 'V', 'W', 'X', 'Y', 'Z']
}

pub open spec fn digit_alphabet() -> Seq<char> {
    seq!['0', '1', '2', '3', '4', '5', '6', '7', '8', '9']
}

/// Space and the printable ASCII punctuation.
pub open spec fn symbol_alphabet() -> Seq<char> {
    seq![' ', '!', '"', '#', '$', '%', '&', '\'', '(', ')', '*', '+', ',', '-', '.', '/', ':', ';',
        '<', '=', '>', '?', '@', '[', '\\', ']', '^', '_', '`', '{', '|', '}', '~']
}

impl PasswordGeneratorOptions {
    /// The dictionary: the enabled alphabets in the order lowercase, uppercase,
    /// digits, symbols.
    pub open spec fn spec_dictionary(&self) -> Seq<char> {
        (if self.use_lowercase { lowercase_alphabet() } else { Seq::empty() })
            + (if self.use_uppercase { uppercase_alphabet() } else { Seq::empty() })
            + (if self.use_digits { digit_alphabet() } else { Seq::empty() })
            + (if self.use_symbols { symbol_alphabet() } else { Seq::empty() })
    }

    pub open spec fn some_class(&self) -> bool {
        self.use_lowercase || self.use_uppercase || self.use_digits || self.use_symbols
    }

    /// Every class enabled, and the default length.
    pub fn new() -> (r: PasswordGeneratorOptions)
        ensures
            r.password_length == DEFAULT_PASSWORD_LENGTH,
            r.use_lowercase && r.use_uppercase && r.use_digits && r.use_symbols,
    {
        PasswordGeneratorOptions {
            password_length: DEFAULT_PASSWORD_LENGTH,
            use_lowercase: true,
            use_uppercase: true,
            use_digits: true,
            use_symbols: true,
        }
    }

    /// The dictionary of the enabled classes; `EmptyPasswordDict` where none is.
    pub fn get_dictionary(&self) -> (r: Result<Vec<char>>)
        ensures
            r is Ok <==> self.some_class(),
            r is Ok ==> r->Ok_0@ == self.spec_dictionary(),
            r is Err ==> r->Err_0.kind_of() == ErrorKind::EmptyPasswordDict,
    {
        if !self.use_lowercase && !self.use_uppercase && !self.use_digits && !self.use_symbols {
            return Err(ErrorKind::EmptyPasswordDict.without_source_error());
        }
        let mut dict: Vec<char> = Vec::new();
        if self.use_lowercase {
            let mut part = vec!['a', 'b', 'c', 'd', 'e', 'f', 'g', 'h', 'i', 'j', 'k', 'l', 'm', 'n',
                'o', 'p', 'q', 'r', 's', 't', 'u', 'v', 'w', 'x', 'y', 'z'];
            assert(part@ =~= lowercase_alphabet());
            dict.append(&mut part);
        }
        if self.use_uppercase {
            let mut part = vec!['A', 'B', 'C', 'D', 'E', 'F', 'G', 'H', 'I', 'J', 'K', 'L', 'M', 'N',
                'O', 'P', 'Q', 'R', 'S', 'T', 'U', 'V', 'W', 'X', 'Y', 'Z'];
            assert(part@ =~= uppercase_alphabet());
            dict.append(&mut part);
        }
        if self.use_digits {
            let mut part = vec!['0', '1', '2', '3', '4', '5', '6', '7', '8', '9'];
            assert(part@ =~= digit_alphabet());
            dict.append(&mut part);
        }
        if self.use_symbols {
            let mut part = vec![' ', '!', '"', '#', '$', '%', '&', '\'', '(', ')', '*', '+', ',', '-',
                '.', '/', ':', ';', '<', '=', '>', '?', '@', '[', '\\', ']', '^', '_', '`', '{', '|', '}',
                '~'];
            assert(part@ =~= symbol_alphabet());
            dict.append(&mut part);
        }
        assert(dict@ =~= self.spec_dictionary());
        Ok(dict)
    }
}

/// Relies on std's `String::push`, which appends one character.
#[verifier::external_body]
fn push_char(s: &mut String, c: char)
    ensures
        final(s)@ == old(s)@.push(c),
{
    s.push(c)
}

/// The password whose characters are the dictionary entries at `indices`.
pub fn password_from_indices(dict: &Vec<char>, indices: &Vec<usize>) -> (r: String)
    requires
        forall|i: int| 0 <= i < indices@.len() ==> indices@[i] < dict@.len(),
    ensures
        r@ == indices@.map_values(|k: usize| dict@[k as int]),
{
    let mut r = String::new();
    let mut i: usize = 0;
    while i < indices.len()
        invariant
            i <= indices@.len(),
            forall|j: int| 0 <= j < indices@.len() ==> indices@[j] < dict@.len(),
            r@ == indices@.take(i as int).map_values(|k: usize| dict@[k as int]),
        decreases indices@.len() - i,
    {
        push_char(&mut r, dict[indices[i]]);
        i = i + 1;
        assert(r@ =~= indices@.take(i as int).map_values(|k: usize| dict@[k as int]));
    }
    assert(indices@.take(i as int) =~= indices@);
    r
}

/// A password of the requested length drawn uniformly, character by character,
/// from the dictionary with a cryptographic random number generator. Fails with
/// `PasswordLengthZero` for a zero length, then with `EmptyPasswordDict` where no
/// class is enabled.
pub fn generate_password(options: &PasswordGeneratorOptions) -> (r: Result<String>)
    ensures
        r is Ok <==> options.password_length > 0 && options.some_class(),
        options.password_length == 0 ==> r is Err && r->Err_0.kind_of() == ErrorKind::PasswordLengthZero,
        options.password_length > 0 && !options.some_class() ==> r is Err
            && r->Err_0.kind_of() == ErrorKind::EmptyPasswordDict,
        r is Ok ==> r->Ok_0@.len() == options.password_length
            && forall|i: int| 0 <= i < r->Ok_0@.len() ==> options.spec_dictionary().contains(#[trigger] r->Ok_0@[i]),
{
    if options.password_length == 0 {
        return Err(ErrorKind::PasswordLengthZero.without_source_error());
    }
    let dict = options.get_dictionary()?;
    let mut indices: Vec<usize> = Vec::new();
    let mut i: usize = 0;
    while i < options.password_length
        invariant
            i <= options.password_length,
            indices@.len() == i,
            dict@.len() > 0,
            forall|j: int| 0 <= j < indices@.len() ==> indices@[j] < dict@.len(),
        decreases options.password_length - i,
    {
        indices.push(random_index(dict.len()));
        i = i + 1;
    }
    let r = password_from_indices(&dict, &indices);
    assert forall|j: int| 0 <= j < r@.len() implies options.spec_dictionary().contains(#[trigger] r@[j]) by {
        assert(dict@[indices@[j] as int] == r@[j]);
    }
    Ok(r)
}

} // verus!
