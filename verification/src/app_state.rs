//! The state of the interactive front end, and its decisions.
//!
//! The front end itself (file dialogs, painting, the event loop) is
//! outside this library; what is here is the state those interactions
//! read and write, with each transition's effect pinned down: paths
//! are carried as plain text, and picking an input file deselects the
//! output format that the input already has.

use vstd::prelude::*;
use vstd::string::StringExecFns;

use crate::ConfigFormat;
use crate::spec_from_extension;
use crate::spec_to_extension;

verus! {

/// The selected formats with every entry whose text equals `t`
/// removed.
pub open spec fn spec_retain_not(ss: Seq<String>, t: Seq<char>) -> Seq<String>
    decreases ss,
{
    if ss.len() == 0 {
        Seq::empty()
    } else if ss[0]@ == t {
        spec_retain_not(ss.drop_first(), t)
    } else {
        seq![ss[0]] + spec_retain_not(ss.drop_first(), t)
    }
}

/// The state of the conversion front end.
pub struct FmtoApp {
    pub input_path: Option<String>,
    pub output_dir: Option<String>,
    pub selected_formats: Vec<String>,
    pub status: String,
    pub error: Option<String>,
}

impl FmtoApp {
    /// A fresh state: no paths chosen yet, the three most common
    /// output formats preselected, and a ready status.
    pub fn new() -> (r: FmtoApp)
        ensures
            r.input_path is None,
            r.output_dir is None,
            r.selected_formats@.len() == 3,
            r.selected_formats@[0]@ == spec_to_extension(ConfigFormat::Json),
            r.selected_formats@[1]@ == spec_to_extension(ConfigFormat::Yaml),
            r.selected_formats@[2]@ == spec_to_extension(ConfigFormat::Toml),
            r.status@.len() > 0,
            r.error is None,
    {
        proof {
            reveal_strlit("json");
            reveal_strlit("yaml");
            reveal_strlit("toml");
            reveal_strlit("ready");
            assert(("json")@ =~= spec_to_extension(ConfigFormat::Json));
            assert(("yaml")@ =~= spec_to_extension(ConfigFormat::Yaml));
            assert(("toml")@ =~= spec_to_extension(ConfigFormat::Toml));
        }
        let mut selected: Vec<String> = Vec::new();
        selected.push(String::from_str("json"));
        selected.push(String::from_str("yaml"));
        selected.push(String::from_str("toml"));
        FmtoApp {
            input_path: None,
            output_dir: None,
            selected_formats: selected,
            status: String::from_str("ready"),
            error: None,
        }
    }

    /// Record a chosen input file: the path is kept, a previous error
    /// is cleared, and the format the input file already has is
    /// deselected among the output formats.
    pub fn set_input_file(&mut self, path: String, extension: &str)
        ensures
            final(self).input_path matches Some(p) && p@ == path@,
            final(self).error is None,
            final(self).output_dir == old(self).output_dir,
            final(self).status == old(self).status,
            (match spec_from_extension(extension@) {
                Some(f) => final(self).selected_formats@ == spec_retain_not(
                    old(self).selected_formats@,
                    spec_to_extension(f),
                ),
                None => final(self).selected_formats@ == old(self).selected_formats@,
            }),
    {
        self.input_path = Some(path);
        self.error = None;
        match ConfigFormat::from_extension(extension) {
            Some(format) => {
                let tag = format.to_extension();
                let tag_text = tag.to_owned();
                let mut kept: Vec<String> = Vec::new();
                let ghost before = self.selected_formats@;
                proof {
                    assert(before.skip(0) =~= before);
                    assert(Seq::<String>::empty() + spec_retain_not(before, tag@)
                        =~= spec_retain_not(before, tag@));
                }
                let mut i: usize = 0;
                while i < self.selected_formats.len()
                    invariant
                        i <= before.len(),
                        self.selected_formats@ == before,
                        kept@ + spec_retain_not(before.skip(i as int), tag@) == spec_retain_not(
                            before,
                            tag@,
                        ),
                    decreases before.len() - i,
                {
                    let ghost ki = kept@;
                    let entry = self.selected_formats[i].clone();
                    let keep = !(entry == tag_text);
                    if keep {
                        kept.push(entry);
                    }
                    proof {
                        assert(before.skip(i as int)[0] == before[i as int]);
                        assert(before.skip(i as int).drop_first() =~= before.skip(i + 1));
                        if keep {
                            assert(kept@ =~= ki + seq![before[i as int]]);
                            assert(ki + (seq![before[i as int]] + spec_retain_not(
                                before.skip(i + 1),
                                tag@,
                            )) =~= kept@ + spec_retain_not(before.skip(i + 1), tag@));
                        }
                    }
                    i += 1;
                }
                proof {
                    assert(before.skip(i as int) =~= Seq::<String>::empty());
                    assert(kept@ + Seq::<String>::empty() =~= kept@);
                }
                self.selected_formats = kept;
            },
            None => (),
        }
    }

    /// Record a chosen output directory and clear a previous error.
    pub fn set_output_dir(&mut self, dir: String)
        ensures
            final(self).output_dir matches Some(d) && d@ == dir@,
            final(self).error is None,
            final(self).input_path == old(self).input_path,
            final(self).status == old(self).status,
            final(self).selected_formats == old(self).selected_formats,
    {
        self.output_dir = Some(dir);
        self.error = None;
    }
}

} // verus!
