pub mod data;
pub mod pixel;
pub mod rng;
pub mod errors;
pub mod image;
pub mod lsb;

use vstd::prelude::*;
use vstd::string::StringSliceAdditionalSpecFns;
use vstd::utf8::encode_utf8_decode_utf8;

verus! {

/// Byte-for-byte equality of two slices.
fn bytes_eq(a: &[u8], b: &[u8]) -> (r: bool)
    ensures
        r == (a@ == b@),
{
    if a.len() != b.len() {
        assert(a@ != b@);
        return false;
    }
    let mut i: usize = 0;
    while i < a.len()
        invariant
            i <= a@.len(),
            a@.len() == b@.len(),
            forall|k: int| 0 <= k < i ==> a@[k] == b@[k],
        decreases a@.len() - i,
    {
        if a[i] != b[i] {
            return false;
        }
        i = i + 1;
    }
    proof {
        assert(a@ =~= b@);
    }
    true
}

/// Character-for-character equality of two string slices.
fn str_eq(a: &str, b: &str) -> (r: bool)
    ensures
        r == (a@ == b@),
{
    let r = bytes_eq(a.as_bytes(), b.as_bytes());
    proof {
        encode_utf8_decode_utf8(a@);
        encode_utf8_decode_utf8(b@);
        assert(a.spec_bytes() == vstd::utf8::encode_utf8(a@));
    }
    r
}

/// The hiding methods available for a given output file extension: only
/// lossless formats can carry LSB data.
pub fn supported_methods(extension: &str) -> (r: Result<Vec<&'static str>, errors::AppError>)
    ensures
        match r {
            Ok(methods) => {
                &&& (extension@ == "bmp"@ || extension@ == "png"@)
                &&& methods@.len() == 1
                &&& methods@[0]@ == "LSB"@
            },
            Err(e) => {
                &&& extension@ != "bmp"@ && extension@ != "png"@
                &&& e.kind() == errors::AppErrorKind::UnsupportedExtension
            },
        },
{
    proof {
        reveal_strlit("bmp");
        reveal_strlit("png");
    }
    if str_eq(extension, "bmp") || str_eq(extension, "png") {
        Ok(vec!["LSB"])
    } else {
        Err(
            errors::AppError::new(
                errors::AppErrorKind::UnsupportedExtension,
                "this extension is not yet supported".to_owned(),
            ),
        )
    }
}

/// What resolving a method for an output extension must give: no extension
/// is an error, an unsupported extension is an error, an explicit method
/// other than LSB is an error, and otherwise LSB is the method.
pub open spec fn resolve_method_spec(ext: Option<Seq<char>>, req: Option<Seq<char>>) -> Result<
    (),
    errors::AppErrorKind,
> {
    match ext {
        None => Err(errors::AppErrorKind::MissingExtension),
        Some(e) => if e != "bmp"@ && e != "png"@ {
            Err(errors::AppErrorKind::UnsupportedExtension)
        } else {
            match req {
                Some(m) => if m == "LSB"@ {
                    Ok(())
                } else {
                    Err(errors::AppErrorKind::UnsupportedMethod)
                },
                None => Ok(()),
            }
        },
    }
}

/// Decides which hiding method an embed run uses, from the output file's
/// extension and the method the caller asked for.
pub fn resolve_method(extension: Option<&str>, requested: Option<&String>) -> (r: Result<
    &'static str,
    errors::AppError,
>)
    ensures
        ({
            let spec_r = resolve_method_spec(
                match extension {
                    Some(e) => Some(e@),
                    None => None,
                },
                match requested {
                    Some(m) => Some(m@),
                    None => None,
                },
            );
            match (r, spec_r) {
                (Ok(m), Ok(_)) => m@ == "LSB"@,
                (Err(e), Err(k)) => e.kind() == k,
                _ => false,
            }
        }),
{
    let ext = match extension {
        Some(e) => e,
        None => {
            return Err(
                errors::AppError::new(
                    errors::AppErrorKind::MissingExtension,
                    "Specified file is missing the extension.".to_owned(),
                ),
            );
        },
    };
    let supported = supported_methods(ext)?;
    match requested {
        Some(m) => {
            proof {
                reveal_strlit("LSB");
            }
            if str_eq(m.as_str(), "LSB") {
                Ok("LSB")
            } else {
                Err(
                    errors::AppError::new(
                        errors::AppErrorKind::UnsupportedMethod,
                        "this is not a supported method".to_owned(),
                    ),
                )
            }
        },
        None => Ok("LSB"),
    }
}

/// Decides whether an extract run may proceed with the method the caller
/// asked for: the method must be given, and must be LSB.
pub fn check_extract_method(method: Option<&String>) -> (r: Result<(), errors::AppError>)
    ensures
        match r {
            Ok(_) => (method matches Some(m) && m@ == "LSB"@),
            Err(e) => match method {
                None => e.kind() == errors::AppErrorKind::NotImplemented,
                Some(m) => m@ != "LSB"@ && e.kind() == errors::AppErrorKind::UnsupportedMethod,
            },
        },
{
    match method {
        Some(m) => {
            proof {
                reveal_strlit("LSB");
            }
            if str_eq(m.as_str(), "LSB") {
                Ok(())
            } else {
                Err(
                    errors::AppError::new(
                        errors::AppErrorKind::UnsupportedMethod,
                        "this is not a supported method".to_owned(),
                    ),
                )
            }
        },
        None => Err(
            errors::AppError::new(
                errors::AppErrorKind::NotImplemented,
                "Method recognition is not yet implemented".to_owned(),
            ),
        ),
    }
}

} // verus!
