//! Module records: buildable components held in a shared, content-addressed
//! pool, independent of any single project.

use vstd::prelude::*;

verus! {

use crate::project::opt_str_view;

/// The mathematical value of a module record.
#[verifier::ext_equal]
pub struct ModuleModel {
    pub project_id: Option<Seq<char>>,
    pub name: Seq<char>,
    pub buildsystem: Option<Seq<char>>,
    pub uses_external_data_checker: bool,
    pub manifest: Seq<char>,
}

/// One buildable component. The build description payload is owned by the
/// external manifest schema; this record holds it as opaque manifest text
/// together with the few fields the registry reads out of it.
pub struct SoftwareModule {
    /// Soft back-reference to an originating project; provenance only,
    /// never ownership.
    pub project_id: Option<String>,
    /// The module's name, as the manifest declares it.
    pub name: String,
    /// The declared build system, if any.
    pub buildsystem: Option<String>,
    /// Whether the build description carries external-data-checker
    /// metadata, so the module supports automated update checks.
    pub uses_external_data_checker: bool,
    /// The full build description payload in its textual form. The
    /// content fingerprint is computed over this text, so a change of
    /// content produces a new record rather than mutating this one.
    pub manifest: String,
}

impl View for SoftwareModule {
    type V = ModuleModel;

    open spec fn view(&self) -> ModuleModel {
        ModuleModel {
            project_id: opt_str_view(self.project_id),
            name: self.name@,
            buildsystem: opt_str_view(self.buildsystem),
            uses_external_data_checker: self.uses_external_data_checker,
            manifest: self.manifest@,
        }
    }
}

impl DeepView for SoftwareModule {
    type V = ModuleModel;

    open spec fn deep_view(&self) -> ModuleModel {
        self.view()
    }
}

/// Copies an optional string.
fn copy_opt_string(o: &Option<String>) -> (r: Option<String>)
    ensures
        opt_str_view(r) == opt_str_view(*o),
{
    match o {
        Some(s) => Some(s.clone()),
        None => None,
    }
}

impl Clone for SoftwareModule {
    /// The copy denotes the same record value.
    fn clone(&self) -> (r: Self)
        ensures
            r@ == self@,
    {
        let r = SoftwareModule {
            project_id: copy_opt_string(&self.project_id),
            name: self.name.clone(),
            buildsystem: copy_opt_string(&self.buildsystem),
            uses_external_data_checker: self.uses_external_data_checker,
            manifest: self.manifest.clone(),
        };
        proof {
            assert(r@ =~= self@);
        }
        r
    }
}

/// The model of a module with no content: everything empty or unset.
pub open spec fn empty_module_model() -> ModuleModel {
    ModuleModel {
        project_id: None,
        name: Seq::empty(),
        buildsystem: None,
        uses_external_data_checker: false,
        manifest: Seq::empty(),
    }
}

impl Default for SoftwareModule {
    /// A module with no content.
    fn default() -> (r: Self)
        ensures
            r@ == empty_module_model(),
    {
        let r = SoftwareModule {
            project_id: None,
            name: String::new(),
            buildsystem: None,
            uses_external_data_checker: false,
            manifest: String::new(),
        };
        proof {
            assert(r@ =~= empty_module_model());
        }
        r
    }
}

} // verus!
