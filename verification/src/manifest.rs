//! A package's on-disk descriptor: its name and its dependency map,
//! held as a parsed document and rewritten entry by entry.
//!
//! The descriptor is loaded once per package instance and written back as
//! pretty-printed text after every successful dependency rewrite; untouched
//! fields ride along unchanged in the document.
use vstd::prelude::*;

use crate::Effect;
use crate::EffectData;
use crate::LpmError;
use crate::json::Json;
use crate::json::JsonData;
use crate::json::clone_json;
use crate::json::declares;
use crate::json::dep_string;
use crate::json::json_dep_string;
use crate::json::json_manifest_name;
use crate::json::json_set_dep;
use crate::json::lemma_set_dep_name;
use crate::json::manifest_name;
use crate::json::parse_value;
use crate::json::parsed_json;
use crate::json::pretty_of;
use crate::json::set_dep;
use crate::json::set_dep_in_value;
use crate::json::to_pretty;
use crate::json::value_data;
use crate::json::value_to_json;

verus! {

/// A manifest: the parsed `package.json` of one package, with the path it
/// was read from.  `data` is the document the library reasons about; `raw`
/// is the same document as the serializer holds it, kept in lockstep so
/// that persisting preserves every untouched field.
#[derive(Debug)]
pub struct PackageJson {
    path: String,
    name: String,
    data: Json,
    raw: serde_json::Value,
}

impl PackageJson {
    /// The path of the descriptor file.
    pub closed spec fn path_spec(&self) -> Seq<char> {
        self.path@
    }

    /// The package's name, as the `name` field holds it.
    pub closed spec fn name_spec(&self) -> Seq<char> {
        self.name@
    }

    /// The whole document.
    pub closed spec fn doc_spec(&self) -> JsonData {
        self.data@
    }

    /// The two document copies agree and the name is the document's.
    pub closed spec fn wf(&self) -> bool {
        &&& value_data(self.raw) == self.data@
        &&& manifest_name(self.data@) == Some(self.name@)
    }

    /// Parses a descriptor text read from `path`.  Construction fails,
    /// as a configuration error, exactly when the text is not JSON or the
    /// document lacks a string `name` field.
    pub fn new(path: String, text: &str) -> (r: Result<PackageJson, LpmError>)
        ensures
            match r {
                Ok(m) => {
                    &&& parsed_json(text@) == Some(m.doc_spec())
                    &&& manifest_name(m.doc_spec()) == Some(m.name_spec())
                    &&& m.path_spec() == path@
                    &&& m.wf()
                },
                Err(e) => {
                    &&& e is Configuration
                    &&& match parsed_json(text@) {
                        Some(d) => manifest_name(d) is None,
                        None => true,
                    }
                },
            },
    {
        let raw = match parse_value(text) {
            Ok(v) => v,
            Err(_) => {
                return Err(
                    LpmError::Configuration("manifest is not valid JSON".to_owned()),
                );
            },
        };
        let data = value_to_json(&raw);
        let name = match json_manifest_name(&data) {
            Some(n) => n.clone(),
            None => {
                return Err(
                    LpmError::Configuration(
                        "manifest lacks a string \"name\" field".to_owned(),
                    ),
                );
            },
        };
        Ok(PackageJson { path, name, data, raw })
    }

    /// The package's name.
    pub fn get_name(&self) -> (n: &String)
        ensures
            n@ == self.name_spec(),
    {
        &self.name
    }

    /// The path of the descriptor file.
    pub fn get_path(&self) -> (p: &String)
        ensures
            p@ == self.path_spec(),
    {
        &self.path
    }

    /// The declared version descriptor of a dependency; absent when the
    /// document does not declare it as a plain string entry.
    pub fn get<'a>(&'a self, package_name: &str) -> (r: Option<&'a String>)
        ensures
            match r {
                Some(s) => dep_string(self.doc_spec(), package_name@) == Some(s@),
                None => dep_string(self.doc_spec(), package_name@) is None,
            },
    {
        json_dep_string(&self.data, package_name)
    }

    /// Rewrites the declared dependency `package_name` to `new_value`.
    /// True, with the document changed in memory only, exactly when the
    /// entry exists as a plain string; false and a no-op otherwise.
    pub fn update(&mut self, package_name: &str, new_value: &str) -> (changed: bool)
        requires
            old(self).wf(),
        ensures
            changed == declares(old(self).doc_spec(), package_name@),
            final(self).doc_spec() == set_dep(
                old(self).doc_spec(),
                package_name@,
                new_value@,
            ),
            final(self).path_spec() == old(self).path_spec(),
            final(self).name_spec() == old(self).name_spec(),
            final(self).wf(),
    {
        let (new_data, changed) = json_set_dep(&self.data, package_name, new_value);
        self.data = new_data;
        set_dep_in_value(&mut self.raw, package_name, new_value);
        proof {
            lemma_set_dep_name(old(self).doc_spec(), package_name@, new_value@);
        }
        changed
    }

    /// The effect that persists the descriptor: overwrite its file with
    /// the pretty-printed current document — text that parses back to
    /// exactly this document, so a later load sees the same data.
    pub fn write(&self) -> (e: Effect)
        requires
            self.wf(),
        ensures
            e@ == (EffectData::WriteManifest {
                path: self.path_spec(),
                text: pretty_of(self.doc_spec()),
            }),
            parsed_json(pretty_of(self.doc_spec())) == Some(self.doc_spec()),
    {
        let text = to_pretty(&self.raw);
        Effect::WriteManifest { path: self.path.clone(), text }
    }

    /// A copy of the manifest, equal under every view.
    pub fn duplicate(&self) -> (r: PackageJson)
        ensures
            r.path_spec() == self.path_spec(),
            r.name_spec() == self.name_spec(),
            r.doc_spec() == self.doc_spec(),
            self.wf() ==> r.wf(),
    {
        PackageJson {
            path: self.path.clone(),
            name: self.name.clone(),
            data: clone_json(&self.data),
            raw: self.raw.clone(),
        }
    }
}

} // verus!
