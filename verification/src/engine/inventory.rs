//! The modules that a plan is made for.

use crate::text::to_chars;
use vstd::prelude::*;

verus! {

/// One installed module, as the scan of the module directory found it.
/// Disabled, removed and skipped modules never get here.
pub struct Module {
    pub id: String,
    /// The module's own directory.
    pub source_path: String,
    /// `magic` forces the magic mount; anything else means overlay.
    pub mode: String,
}

pub ghost struct ModuleModel {
    pub id: Seq<char>,
    pub source_path: Seq<char>,
    pub mode: Seq<char>,
}

impl View for Module {
    type V = ModuleModel;

    open spec fn view(&self) -> ModuleModel {
        ModuleModel { id: self.id@, source_path: self.source_path@, mode: self.mode@ }
    }
}

pub open spec fn module_models(v: Seq<Module>) -> Seq<ModuleModel> {
    Seq::new(v.len(), |i: int| v[i]@)
}

/// A character that may stand in a module identifier.
pub open spec fn id_char(c: char) -> bool {
    ||| 'a' <= c <= 'z'
    ||| 'A' <= c <= 'Z'
    ||| '0' <= c <= '9'
    ||| c == '.'
    ||| c == '_'
    ||| c == '-'
}

/// A module identifier: not empty, and made of letters, digits, `.`, `_`
/// and `-` only.
pub open spec fn valid_module_id(id: Seq<char>) -> bool {
    id.len() > 0 && forall|i: int| 0 <= i < id.len() ==> id_char(#[trigger] id[i])
}

/// Whether `id` can name a module.
pub fn validate_module_id(id: &str) -> (ok: bool)
    ensures
        ok == valid_module_id(id@),
{
    let chars = to_chars(id);
    if chars.len() == 0 {
        return false;
    }
    let mut i: usize = 0;
    while i < chars.len()
        invariant
            i <= chars.len(),
            chars@ == id@,
            forall|k: int| 0 <= k < i ==> id_char(#[trigger] chars@[k]),
        decreases chars.len() - i,
    {
        let c: char = chars[i];
        let ok = ('a' <= c && c <= 'z') || ('A' <= c && c <= 'Z') || ('0' <= c && c <= '9') || c
            == '.' || c == '_' || c == '-';
        if !ok {
            assert(!id_char(id@[i as int]));
            return false;
        }
        i = i + 1;
    }
    true
}

} // verus!
