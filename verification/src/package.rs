//! The buildable unit: a source package, and the decorator that bundles
//! one into a distributable archive.
//!
//! A package exposes its name, root path, a version descriptor, a build
//! step, dependency inspection and dependency rewriting.  The source
//! variant's descriptor points at its own tree; the bundled variant's at a
//! packaged archive inside the consumer's tree.
use vstd::prelude::*;

use crate::Effect;
use crate::EffectData;
use crate::LpmError;
use crate::json::JsonData;
use crate::json::declares;
use crate::json::manifest_name;
use crate::json::parsed_json;
use crate::json::pretty_of;
use crate::json::set_dep;
use crate::manifest::PackageJson;
use crate::util::join2;

verus! {

/// The descriptor file inside a package root.
pub open spec fn manifest_file_spec(path: Seq<char>) -> Seq<char> {
    path + "/package.json"@
}

/// A version descriptor resolving to a local filesystem reference.
pub open spec fn file_descriptor_spec(target: Seq<char>) -> Seq<char> {
    "file:"@ + target
}

/// The staging place of a produced archive, keyed by package name.
pub open spec fn tarball_file_spec(name: Seq<char>) -> Seq<char> {
    "/tmp/lpm/"@ + name + "/build.tar.gz"@
}

/// The per-consumer cache place of a copied archive, relative to the
/// consumer's root, keyed by package name.
pub open spec fn local_bundle_file_spec(name: Seq<char>) -> Seq<char> {
    ".lpm/"@ + name + "/build.tar.gz"@
}

/// A buildable unit: name, root path, version descriptor, build step,
/// dependency inspection and dependency rewriting.
pub trait Package: Sized {
    /// The package's name, from its manifest.
    spec fn name_spec(&self) -> Seq<char>;

    /// The package's root path.
    spec fn path_spec(&self) -> Seq<char>;

    /// The manifest document.
    spec fn doc_spec(&self) -> JsonData;

    /// What a consumer's manifest entry is rewritten to.
    spec fn version_value_spec(&self) -> Seq<char>;

    /// What building this package asks of the runner.
    spec fn prepare_effect_spec(&self) -> EffectData;

    /// Internal consistency of the package value.
    spec fn wf(&self) -> bool;

    /// The effect that builds the package.
    fn prepare(&self) -> (e: Effect)
        requires
            self.wf(),
        ensures
            e@ == self.prepare_effect_spec(),
    ;

    /// The package's name.
    fn get_name(&self) -> (n: String)
        ensures
            n@ == self.name_spec(),
    ;

    /// The package's root path.
    fn get_path(&self) -> (p: String)
        ensures
            p@ == self.path_spec(),
    ;

    /// The version descriptor a consumer's manifest entry is set to.
    fn get_version_value(&self) -> (v: String)
        ensures
            v@ == self.version_value_spec(),
    ;

    /// Rewrites this package's manifest entry for the dependency named
    /// `dep_name` to the descriptor `dep_value`.  True, together with the
    /// effect that persists the manifest, exactly when the entry is
    /// declared; a no-op otherwise — an absent dependency is never an
    /// error.
    fn update(&mut self, dep_name: &str, dep_value: &str) -> (r: (bool, Option<Effect>))
        requires
            old(self).wf(),
        ensures
            final(self).wf(),
            r.0 == declares(old(self).doc_spec(), dep_name@),
            final(self).doc_spec() == set_dep(old(self).doc_spec(), dep_name@, dep_value@),
            final(self).name_spec() == old(self).name_spec(),
            final(self).path_spec() == old(self).path_spec(),
            final(self).version_value_spec() == old(self).version_value_spec(),
            final(self).prepare_effect_spec() == old(self).prepare_effect_spec(),
            r.0 ==> (r.1 matches Some(e) && e@ == (EffectData::WriteManifest {
                path: manifest_file_spec(old(self).path_spec()),
                text: pretty_of(final(self).doc_spec()),
            })),
            !r.0 ==> r.1 is None,
    ;

    /// Whether this package's manifest declares a dependency of that name;
    /// the declared version range is not inspected.
    fn depends_on(&self, name: &str) -> (b: bool)
        requires
            self.wf(),
        ensures
            b == declares(self.doc_spec(), name@),
    ;
}

/// Rewrites `dependent`'s manifest entry for `dependency` to the
/// dependency's own version descriptor, as the orchestration does at each
/// step.
pub fn update_package<P: Package, D: Package>(dependent: &mut P, dependency: &D) -> (r: (
    bool,
    Option<Effect>,
))
    requires
        old(dependent).wf(),
        dependency.wf(),
    ensures
        final(dependent).wf(),
        r.0 == declares(old(dependent).doc_spec(), dependency.name_spec()),
        final(dependent).doc_spec() == set_dep(
            old(dependent).doc_spec(),
            dependency.name_spec(),
            dependency.version_value_spec(),
        ),
        final(dependent).name_spec() == old(dependent).name_spec(),
        final(dependent).path_spec() == old(dependent).path_spec(),
        final(dependent).version_value_spec() == old(dependent).version_value_spec(),
        final(dependent).prepare_effect_spec() == old(dependent).prepare_effect_spec(),
        r.0 ==> (r.1 matches Some(e) && e@ == (EffectData::WriteManifest {
            path: manifest_file_spec(old(dependent).path_spec()),
            text: pretty_of(final(dependent).doc_spec()),
        })),
        !r.0 ==> r.1 is None,
{
    let name = dependency.get_name();
    let value = dependency.get_version_value();
    dependent.update(name.as_str(), value.as_str())
}

/// A raw source package on the filesystem.
#[derive(Debug)]
pub struct Typescript {
    package_json: PackageJson,
    path: String,
}

impl Typescript {
    /// Builds the package value from its root path and the text of its
    /// descriptor file, read from `path` joined with `package.json`.
    /// Fails, as a configuration error, exactly when the text is not JSON
    /// or the document lacks a string `name` field.
    pub fn new(path: String, manifest_text: &str) -> (r: Result<Typescript, LpmError>)
        ensures
            match r {
                Ok(t) => {
                    &&& parsed_json(manifest_text@) == Some(t.doc_spec())
                    &&& manifest_name(t.doc_spec()) == Some(t.name_spec())
                    &&& t.path_spec() == path@
                    &&& t.wf()
                },
                Err(e) => {
                    &&& e is Configuration
                    &&& match parsed_json(manifest_text@) {
                        Some(d) => manifest_name(d) is None,
                        None => true,
                    }
                },
            },
    {
        let manifest_path = join2(path.as_str(), "/package.json");
        let package_json = PackageJson::new(manifest_path, manifest_text)?;
        Ok(Typescript { package_json, path })
    }

    /// A source package's descriptor references its own tree, and its
    /// build runs the build backend on that tree.
    pub proof fn lemma_source_specs(&self)
        ensures
            self.version_value_spec() == file_descriptor_spec(self.path_spec()),
            self.prepare_effect_spec() == (EffectData::Build { path: self.path_spec() }),
    {
    }

    /// A copy of the package, equal under every view.
    pub fn duplicate(&self) -> (r: Typescript)
        ensures
            r.name_spec() == self.name_spec(),
            r.path_spec() == self.path_spec(),
            r.doc_spec() == self.doc_spec(),
            self.wf() ==> r.wf(),
    {
        Typescript { package_json: self.package_json.duplicate(), path: self.path.clone() }
    }
}

impl Package for Typescript {
    closed spec fn name_spec(&self) -> Seq<char> {
        self.package_json.name_spec()
    }

    closed spec fn path_spec(&self) -> Seq<char> {
        self.path@
    }

    closed spec fn doc_spec(&self) -> JsonData {
        self.package_json.doc_spec()
    }

    /// A direct reference to the package's own tree.
    closed spec fn version_value_spec(&self) -> Seq<char> {
        file_descriptor_spec(self.path@)
    }

    /// Building a source package runs the build backend on its root.
    closed spec fn prepare_effect_spec(&self) -> EffectData {
        EffectData::Build { path: self.path@ }
    }

    closed spec fn wf(&self) -> bool {
        &&& self.package_json.wf()
        &&& self.package_json.path_spec() == manifest_file_spec(self.path@)
    }

    fn prepare(&self) -> (e: Effect) {
        Effect::Build { path: self.path.clone() }
    }

    fn get_name(&self) -> (n: String) {
        self.package_json.get_name().clone()
    }

    fn get_path(&self) -> (p: String) {
        self.path.clone()
    }

    fn get_version_value(&self) -> (v: String) {
        join2("file:", self.path.as_str())
    }

    fn update(&mut self, dep_name: &str, dep_value: &str) -> (r: (bool, Option<Effect>)) {
        let changed = self.package_json.update(dep_name, dep_value);
        if changed {
            (true, Some(self.package_json.write()))
        } else {
            (false, None)
        }
    }

    fn depends_on(&self, name: &str) -> (b: bool) {
        match self.package_json.get(name) {
            Some(_) => true,
            None => false,
        }
    }
}

/// The bundling decorator: the wrapped package's build produces a
/// distributable archive, and its version descriptor points at the copy
/// of that archive inside the consumer's own tree.
#[derive(Debug)]
pub struct Bundle {
    inner: Typescript,
}

impl Bundle {
    /// Wraps a source package.
    pub fn new(inner: Typescript) -> (b: Bundle)
        ensures
            b.name_spec() == inner.name_spec(),
            b.path_spec() == inner.path_spec(),
            b.doc_spec() == inner.doc_spec(),
            inner.wf() ==> b.wf(),
    {
        Bundle { inner }
    }

    /// A bundle's descriptor references the consumer's local copy of its
    /// archive, and its build produces the archive in the staging root.
    pub proof fn lemma_bundle_specs(&self)
        ensures
            self.version_value_spec() == file_descriptor_spec(
                local_bundle_file_spec(self.name_spec()),
            ),
            self.prepare_effect_spec() == (EffectData::MakeArchive {
                package_path: self.path_spec(),
                tarball_file: tarball_file_spec(self.name_spec()),
            }),
    {
    }

    /// Where the produced archive is staged, keyed by package name.
    pub fn get_tarball_file(&self) -> (f: String)
        ensures
            f@ == tarball_file_spec(self.name_spec()),
    {
        let name = self.inner.get_name();
        crate::util::join3("/tmp/lpm/", name.as_str(), "/build.tar.gz")
    }

    /// Where a consumer keeps its copy of the archive, relative to the
    /// consumer's root, keyed by package name.
    pub fn get_local_bundle_file(&self) -> (f: String)
        ensures
            f@ == local_bundle_file_spec(self.name_spec()),
    {
        let name = self.inner.get_name();
        crate::util::join3(".lpm/", name.as_str(), "/build.tar.gz")
    }

    /// The staging directory holding the produced archive.
    pub fn get_tarball_dir(&self) -> (d: String)
        ensures
            d@ == "/tmp/lpm/"@ + self.name_spec(),
    {
        let name = self.inner.get_name();
        join2("/tmp/lpm/", name.as_str())
    }
}

impl Package for Bundle {
    closed spec fn name_spec(&self) -> Seq<char> {
        self.inner.name_spec()
    }

    closed spec fn path_spec(&self) -> Seq<char> {
        self.inner.path_spec()
    }

    closed spec fn doc_spec(&self) -> JsonData {
        self.inner.doc_spec()
    }

    /// A reference to the archive copy inside the consumer's tree.
    closed spec fn version_value_spec(&self) -> Seq<char> {
        file_descriptor_spec(local_bundle_file_spec(self.inner.name_spec()))
    }

    /// Building a bundle stages the package's build output, manifest and
    /// README into a gzip-compressed archive keyed by package name.
    closed spec fn prepare_effect_spec(&self) -> EffectData {
        EffectData::MakeArchive {
            package_path: self.inner.path_spec(),
            tarball_file: tarball_file_spec(self.inner.name_spec()),
        }
    }

    closed spec fn wf(&self) -> bool {
        self.inner.wf()
    }

    fn prepare(&self) -> (e: Effect) {
        Effect::MakeArchive {
            package_path: self.inner.get_path(),
            tarball_file: self.get_tarball_file(),
        }
    }

    fn get_name(&self) -> (n: String) {
        self.inner.get_name()
    }

    fn get_path(&self) -> (p: String) {
        self.inner.get_path()
    }

    fn get_version_value(&self) -> (v: String) {
        let local = self.get_local_bundle_file();
        join2("file:", local.as_str())
    }

    fn update(&mut self, dep_name: &str, dep_value: &str) -> (r: (bool, Option<Effect>)) {
        self.inner.update(dep_name, dep_value)
    }

    fn depends_on(&self, name: &str) -> (b: bool) {
        self.inner.depends_on(name)
    }
}

/// A tar stream being written into an in-memory gzip buffer.  The archive
/// crate's builder cannot be declared to the verifier — its `Write`
/// bound is outside what declarations carry — so it lives in a hidden
/// field; what has been appended is named by `archive_entries`.
#[verifier::external_body]
pub struct ArchiveBuilder {
    inner: tar::Builder<flate2::write::GzEncoder<Vec<u8>>>,
}

/// What the builder holds so far: entry names, contents and permission
/// modes, in append order.
pub uninterp spec fn archive_entries(b: ArchiveBuilder) -> Seq<(Seq<char>, Seq<u8>, u32)>;

/// The bytes of the finished gzip-compressed tar stream holding exactly
/// those entries: a function of the entries alone, because every header
/// field beside name, size and mode is fixed and the gzip header carries
/// no timestamp.
pub uninterp spec fn targz_of(entries: Seq<(Seq<char>, Seq<u8>, u32)>) -> Seq<u8>;

/// Relies on tar::Builder::new over a fresh gzip stream: a new builder
/// holds no entries.
#[verifier::external_body]
pub fn archive_new() -> (b: ArchiveBuilder)
    ensures
        archive_entries(b) == Seq::<(Seq<char>, Seq<u8>, u32)>::empty(),
{
    ArchiveBuilder {
        inner: tar::Builder::new(
            flate2::write::GzEncoder::new(Vec::new(), flate2::Compression::default()),
        ),
    }
}

/// Whether the archive format accepts an entry of the given name: with
/// an in-memory writer nothing else can fail, and the name is validated
/// before anything is emitted, so acceptance is a function of the name.
pub uninterp spec fn append_accepts(name: Seq<char>) -> bool;

/// Relies on tar::Builder::append_data with a fresh GNU header carrying
/// the given size and the mode as the header's octal field records it:
/// on success exactly this entry is appended; on failure (a name the
/// format cannot carry) nothing is.  Which names are accepted is fixed
/// by the format and named `append_accepts`.
#[verifier::external_body]
pub fn archive_append(b: &mut ArchiveBuilder, name: &str, data: &[u8], mode: u32) -> (ok: bool)
    ensures
        ok == append_accepts(name@),
        ok ==> archive_entries(*final(b)) == archive_entries(*old(b)).push(
            (name@, data@, mode),
        ),
        !ok ==> archive_entries(*final(b)) == archive_entries(*old(b)),
{
    let mut header = tar::Header::new_gnu();
    header.set_size(data.len() as u64);
    header.set_mode(mode);
    b.inner.append_data(&mut header, name, data).is_ok()
}

/// Relies on tar::Builder::into_inner and GzEncoder::finish: the finished
/// stream holds exactly the appended entries.  Both only flush into the
/// in-memory buffer, which cannot fail, so the expects never fire.
#[verifier::external_body]
pub fn archive_finish(b: ArchiveBuilder) -> (r: Vec<u8>)
    ensures
        r@ == targz_of(archive_entries(b)),
{
    let encoder = b.inner.into_inner().expect("an in-memory tar stream always closes");
    encoder.finish().expect("an in-memory gzip stream always closes")
}

/// View of a list of staged files: names, contents and modes.
pub open spec fn files_view(fs: Seq<(String, Vec<u8>, u32)>) -> Seq<(Seq<char>, Seq<u8>, u32)> {
    Seq::new(
        fs.len(),
        |i: int|
            if 0 <= i < fs.len() {
                (fs[i].0@, fs[i].1@, fs[i].2)
            } else {
                (Seq::<char>::empty(), Seq::<u8>::empty(), 0u32)
            },
    )
}

/// The archive layout: every staged build-output file under
/// `package/dist/`, then `package/package.json`, then `package/README.md`.
pub open spec fn bundle_entries_spec(
    dist: Seq<(Seq<char>, Seq<u8>, u32)>,
    package_json: Seq<u8>,
    package_json_mode: u32,
    readme: Seq<u8>,
    readme_mode: u32,
) -> Seq<(Seq<char>, Seq<u8>, u32)> {
    dist_entries_spec(dist, dist.len() as int).push(
        ("package/package.json"@, package_json, package_json_mode),
    ).push(("package/README.md"@, readme, readme_mode))
}

/// Whether the archive format accepts every entry name of the fixed
/// layout for these staged files.
pub open spec fn bundle_names_accepted(dist: Seq<(Seq<char>, Seq<u8>, u32)>) -> bool {
    &&& forall|i: int|
        0 <= i < dist.len() ==> #[trigger] append_accepts("package/dist/"@ + dist[i].0)
    &&& append_accepts("package/package.json"@)
    &&& append_accepts("package/README.md"@)
}

/// The first `n` staged build-output files, placed under `package/dist/`.
pub open spec fn dist_entries_spec(dist: Seq<(Seq<char>, Seq<u8>, u32)>, n: int) -> Seq<
    (Seq<char>, Seq<u8>, u32),
> {
    Seq::new(
        n as nat,
        |i: int|
            if 0 <= i < dist.len() {
                ("package/dist/"@ + dist[i].0, dist[i].1, dist[i].2)
            } else {
                (Seq::<char>::empty(), Seq::<u8>::empty(), 0u32)
            },
    )
}

/// Assembles the distributable archive from staged file contents: the
/// build-output files under `package/dist/`, the manifest and the README,
/// byte for byte.  `None` exactly when the archive format refuses one of
/// the staged entry names.
#[verifier::loop_isolation(false)]
pub fn build_archive(
    dist_files: &Vec<(String, Vec<u8>, u32)>,
    package_json: &Vec<u8>,
    package_json_mode: u32,
    readme: &Vec<u8>,
    readme_mode: u32,
) -> (r: Option<Vec<u8>>)
    ensures
        r matches Some(bytes) ==> bytes@ == targz_of(
            bundle_entries_spec(
                files_view(dist_files@),
                package_json@,
                package_json_mode,
                readme@,
                readme_mode,
            ),
        ),
        (r is Some) == bundle_names_accepted(files_view(dist_files@)),
{
    let ghost dist = files_view(dist_files@);
    let mut builder = archive_new();
    let mut i: usize = 0;
    while i < dist_files.len()
        invariant
            i <= dist_files@.len(),
            archive_entries(builder) == dist_entries_spec(dist, i as int),
            forall|l: int| 0 <= l < i ==> #[trigger] append_accepts("package/dist/"@ + dist[l].0),
        decreases dist_files@.len() - i,
    {
        let name = join2("package/dist/", dist_files[i].0.as_str());
        let ok = archive_append(
            &mut builder,
            name.as_str(),
            dist_files[i].1.as_slice(),
            dist_files[i].2,
        );
        if !ok {
            proof {
                assert(!append_accepts("package/dist/"@ + dist[i as int].0));
            }
            return None;
        }
        proof {
            assert(dist_entries_spec(dist, i + 1) =~= dist_entries_spec(dist, i as int).push(
                ("package/dist/"@ + dist[i as int].0, dist[i as int].1, dist[i as int].2),
            ));
        }
        i = i + 1;
    }
    let ok = archive_append(
        &mut builder,
        "package/package.json",
        package_json.as_slice(),
        package_json_mode,
    );
    if !ok {
        return None;
    }
    let ok = archive_append(&mut builder, "package/README.md", readme.as_slice(), readme_mode);
    if !ok {
        return None;
    }
    Some(archive_finish(builder))
}

} // verus!
