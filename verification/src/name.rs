//! Names of root-directory files in their stored 8.3 form.
use vstd::prelude::*;

verus! {

/// The base and the extension that `embedded_sdmmc` makes of a name, letter
/// case kept; `None` where it rejects the name.
pub uninterp spec fn name_parts_of(name: Seq<char>) -> Option<(Seq<u8>, Seq<u8>)>;

/// `embedded_sdmmc::ShortFileName::create_from_str_mixed_case`: splits a
/// name at its dot into base and extension, or rejects it. The two parts
/// are read from the result with its `base_name` and `extension`.
#[verifier::external_body]
pub(crate) fn convert_name(name: &str) -> (r: Option<(Vec<u8>, Vec<u8>)>)
    ensures
        r matches Some(parts) ==> name_parts_of(name@) == Some((parts.0@, parts.1@)),
        r is None ==> name_parts_of(name@) is None,
{
    match embedded_sdmmc::ShortFileName::create_from_str_mixed_case(name) {
        Ok(sfn) => Some((sfn.base_name().to_vec(), sfn.extension().to_vec())),
        Err(_) => None,
    }
}

/// A name as the directory stores it: eight bytes of base and three of
/// extension, each padded with spaces.
#[derive(Clone, Copy, Debug, PartialEq, Eq)]
pub struct ShortName {
    pub bytes: [u8; 11],
}

impl View for ShortName {
    type V = Seq<u8>;

    open spec fn view(&self) -> Seq<u8> {
        self.bytes@
    }
}

/// Whether a base and an extension fit the stored form, and the first byte
/// is neither the directory's end mark `00` nor its deleted mark `E5`.
pub open spec fn storable(base: Seq<u8>, ext: Seq<u8>) -> bool {
    &&& 1 <= base.len() <= 8
    &&& ext.len() <= 3
    &&& base[0] != 0x00
    &&& base[0] != 0xE5
}

/// Base and extension, each padded with spaces to its width.
pub open spec fn padded(base: Seq<u8>, ext: Seq<u8>) -> Seq<u8> {
    Seq::new(
        11,
        |i: int|
            if i < 8 {
                if i < base.len() {
                    base[i]
                } else {
                    0x20u8
                }
            } else {
                if i - 8 < ext.len() {
                    ext[i - 8]
                } else {
                    0x20u8
                }
            },
    )
}

/// The stored name that a conversion result stands for, if any.
pub open spec fn stored_name(parts: Option<(Seq<u8>, Seq<u8>)>) -> Option<Seq<u8>> {
    match parts {
        Some((base, ext)) => if storable(base, ext) {
            Some(padded(base, ext))
        } else {
            None
        },
        None => None,
    }
}

impl ShortName {
    /// The first byte is not a directory mark.
    pub open spec fn wf(&self) -> bool {
        self@[0] != 0x00 && self@[0] != 0xE5
    }

    /// Pads a base and an extension to the stored form.
    pub fn from_parts(base: &Vec<u8>, ext: &Vec<u8>) -> (r: Option<ShortName>)
        ensures
            r matches Some(n) ==> Some(n@) == stored_name(Some((base@, ext@))) && n.wf(),
            r is None ==> !storable(base@, ext@),
    {
        if base.len() < 1 || base.len() > 8 || ext.len() > 3 {
            return None;
        }
        if base[0] == 0x00 || base[0] == 0xE5 {
            return None;
        }
        let mut bytes = [0x20u8; 11];
        let mut i: usize = 0;
        while i < base.len()
            invariant
                i <= base.len() <= 8,
                forall|k: int| 0 <= k < i ==> bytes@[k] == base@[k],
                forall|k: int| i <= k < 11 ==> bytes@[k] == 0x20u8,
            decreases base.len() - i,
        {
            bytes[i] = base[i];
            i = i + 1;
        }
        let mut j: usize = 0;
        while j < ext.len()
            invariant
                j <= ext.len() <= 3,
                base.len() <= 8,
                forall|k: int| 0 <= k < base.len() ==> bytes@[k] == base@[k],
                forall|k: int| base.len() <= k < 8 ==> bytes@[k] == 0x20u8,
                forall|k: int| 0 <= k < j ==> bytes@[8 + k] == ext@[k],
                forall|k: int| 8 + j <= k < 11 ==> bytes@[k] == 0x20u8,
            decreases ext.len() - j,
        {
            bytes[8 + j] = ext[j];
            j = j + 1;
        }
        let n = ShortName { bytes };
        assert(n@ =~= padded(base@, ext@)) by {
            assert forall|k: int| 0 <= k < 11 implies n@[k] == padded(base@, ext@)[k] by {
                if k >= 8 && k - 8 < ext.len() {
                    assert(n@[8 + (k - 8)] == ext@[k - 8]);
                }
            }
        }
        Some(n)
    }

    /// Converts a name such as `"LOG.TXT"` to its stored form.
    pub fn parse(name: &str) -> (r: Option<ShortName>)
        ensures
            r matches Some(n) ==> Some(n@) == stored_name(name_parts_of(name@)) && n.wf(),
            r is None ==> stored_name(name_parts_of(name@)) is None,
    {
        match convert_name(name) {
            Some(parts) => Self::from_parts(&parts.0, &parts.1),
            None => None,
        }
    }
}

} // verus!
