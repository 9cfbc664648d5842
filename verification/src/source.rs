//! Where an image to install comes from, and how that is described to the
//! user.

use crate::text::{chars_of, dec_string, extend_chars, push_decimal, string_of};
use vstd::prelude::*;

verus! {

/// Which signing keys to trust.
#[derive(Debug, Clone, Copy, PartialEq, Eq)]
pub enum VerifyKeys {
    /// Production keys.
    Production,
}

/// A local image, with its detached signature beside it.
#[derive(Debug, Clone)]
pub struct FileLocation {
    pub image_path: String,
    pub sig_path: String,
}

impl FileLocation {
    /// The image at `path`; the signature is `path.sig`.
    pub fn new(path: &str) -> (r: Self)
        ensures
            r.image_path@ == path@,
            r.sig_path@ == path@ + ".sig"@,
    {
        proof {
            reveal_strlit(".sig");
        }
        let mut s = chars_of(path);
        extend_chars(&mut s, chars_of(".sig").as_slice());
        FileLocation { image_path: path.to_owned(), sig_path: string_of(&s) }
    }

    /// What is read, for the user.
    pub fn describe(&self) -> (r: String)
        ensures
            r@ == "Copying image from "@ + self.image_path@ + "\nReading signature from "@
                + self.sig_path@,
    {
        proof {
            reveal_strlit("Copying image from ");
            reveal_strlit("\nReading signature from ");
        }
        let mut s = chars_of("Copying image from ");
        extend_chars(&mut s, chars_of(self.image_path.as_str()).as_slice());
        extend_chars(&mut s, chars_of("\nReading signature from ").as_slice());
        extend_chars(&mut s, chars_of(self.sig_path.as_str()).as_slice());
        string_of(&s)
    }
}

/// An image rebuilt from an osmet file and the running system.
#[derive(Debug, Clone)]
pub struct OsmetLocation {
    pub osmet_path: String,
    pub architecture: String,
    pub sector_size: u32,
    pub description: String,
}

impl OsmetLocation {
    /// The location for the osmet file that was found for the
    /// architecture and sector size (its path and description), if any.
    pub fn new(architecture: &str, sector_size: u32, found: Option<(String, String)>) -> (r: Option<Self>)
        ensures
            match found {
                None => r is None,
                Some((p, d)) => r matches Some(l) && l.osmet_path@ == p@ && l.description@ == d@
                    && l.architecture@ == architecture@ && l.sector_size == sector_size,
            },
    {
        match found {
            None => None,
            Some((osmet_path, description)) => Some(
                OsmetLocation {
                    osmet_path,
                    architecture: architecture.to_owned(),
                    sector_size,
                    description,
                },
            ),
        }
    }

    /// What is installed, for the user.
    pub fn describe(&self) -> (r: String)
        ensures
            r@ == "Installing "@ + self.description@ + " "@ + self.architecture@ + " ("@
                + dec_string(self.sector_size as nat) + "-byte sectors)"@,
    {
        proof {
            reveal_strlit("Installing ");
            reveal_strlit(" ");
            reveal_strlit(" (");
            reveal_strlit("-byte sectors)");
        }
        let mut s = chars_of("Installing ");
        extend_chars(&mut s, chars_of(self.description.as_str()).as_slice());
        extend_chars(&mut s, chars_of(" ").as_slice());
        extend_chars(&mut s, chars_of(self.architecture.as_str()).as_slice());
        extend_chars(&mut s, chars_of(" (").as_slice());
        push_decimal(&mut s, self.sector_size as u64);
        extend_chars(&mut s, chars_of("-byte sectors)").as_slice());
        string_of(&s)
    }
}

} // verus!
