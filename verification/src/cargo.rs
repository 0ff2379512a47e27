//! Reading package metadata out of manifest text, and assembling a
//! release build's project list.

use vstd::prelude::*;

verus! {

/// Why no project root could be found. Discovery itself walks the
/// filesystem and is the caller's step; it reports with this type.
#[derive(Debug, PartialEq, Eq, Structural)]
pub enum ProjectRootError {
    Io,
    MissingCargoLock,
}

/// Names the string that the toml crate finds in a document under a
/// table key and an inner key, where the document parses and the keys
/// lead to a string.
pub uninterp spec fn toml_str_key_of(doc: Seq<char>, k1: Seq<char>, k2: Seq<char>) -> Option<
    Seq<char>,
>;

/// Names the array of strings that the toml crate finds in a document
/// under a table key and an inner key, where the document parses and the
/// keys lead to an array of strings.
pub uninterp spec fn toml_str_array_key_of(doc: Seq<char>, k1: Seq<char>, k2: Seq<char>) -> Option<
    Seq<Seq<char>>,
>;

/// Relies on toml::from_str::<toml::Value>, Value::get and Value::as_str:
/// parses the document and reads the string under `doc[k1][k2]`.
#[verifier::external_body]
fn toml_table_str(doc: &str, k1: &str, k2: &str) -> (r: Option<String>)
    ensures
        r is Some <==> toml_str_key_of(doc@, k1@, k2@) is Some,
        r matches Some(s) ==> Some(s@) == toml_str_key_of(doc@, k1@, k2@),
{
    let v: toml::Value = toml::from_str(doc).ok()?;
    v.get(k1)?.get(k2)?.as_str().map(|s| s.to_owned())
}

/// Relies on toml::from_str::<toml::Value>, Value::get, Value::as_array
/// and Value::as_str: parses the document and reads the array of strings
/// under `doc[k1][k2]`, element by element.
#[verifier::external_body]
fn toml_table_str_array(doc: &str, k1: &str, k2: &str) -> (r: Option<Vec<String>>)
    ensures
        r is Some <==> toml_str_array_key_of(doc@, k1@, k2@) is Some,
        r matches Some(v) ==> Some(v@.map_values(|s: String| s@)) == toml_str_array_key_of(
            doc@,
            k1@,
            k2@,
        ),
{
    let v: toml::Value = toml::from_str(doc).ok()?;
    let arr = v.get(k1)?.get(k2)?.as_array()?;
    arr.iter().map(|x| x.as_str().map(|s| s.to_owned())).collect::<Option<Vec<String>>>()
}

/// A package manifest: its location and its text. Discovery and reading
/// are the caller's filesystem steps; every key lookup here is a pure
/// function of the text captured at construction, so later changes of
/// the file on disk are not seen until a new value is made.
#[derive(Debug, Clone)]
pub struct CargoToml {
    path: String,
    contents: String,
}

impl CargoToml {
    /// The manifest's location.
    pub closed spec fn spec_path(&self) -> Seq<char> {
        self.path@
    }

    /// The manifest's text.
    pub closed spec fn spec_contents(&self) -> Seq<char> {
        self.contents@
    }

    /// A manifest at `path` whose text is `contents`.
    pub fn from_contents(path: String, contents: String) -> (r: CargoToml)
        ensures
            r.spec_path() == path@,
            r.spec_contents() == contents@,
    {
        CargoToml { path, contents }
    }

    /// The manifest's location.
    pub fn path(&self) -> (r: &str)
        ensures
            r@ == self.spec_path(),
    {
        self.path.as_str()
    }

    /// The package version, where the manifest has one.
    pub fn version(&self) -> (r: Option<String>)
        ensures
            r is Some <==> toml_str_key_of(self.spec_contents(), "package"@, "version"@) is Some,
            r matches Some(s) ==> Some(s@) == toml_str_key_of(
                self.spec_contents(),
                "package"@,
                "version"@,
            ),
    {
        toml_table_str(self.contents.as_str(), "package", "version")
    }

    /// The package name, where the manifest has one.
    pub fn name(&self) -> (r: Option<String>)
        ensures
            r is Some <==> toml_str_key_of(self.spec_contents(), "package"@, "name"@) is Some,
            r matches Some(s) ==> Some(s@) == toml_str_key_of(
                self.spec_contents(),
                "package"@,
                "name"@,
            ),
    {
        toml_table_str(self.contents.as_str(), "package", "name")
    }

    /// The package license, where the manifest has one.
    pub fn license(&self) -> (r: Option<String>)
        ensures
            r is Some <==> toml_str_key_of(self.spec_contents(), "package"@, "license"@) is Some,
            r matches Some(s) ==> Some(s@) == toml_str_key_of(
                self.spec_contents(),
                "package"@,
                "license"@,
            ),
    {
        toml_table_str(self.contents.as_str(), "package", "license")
    }

    /// The package description, where the manifest has one.
    pub fn description(&self) -> (r: Option<String>)
        ensures
            r is Some <==> toml_str_key_of(self.spec_contents(), "package"@, "description"@)
                is Some,
            r matches Some(s) ==> Some(s@) == toml_str_key_of(
                self.spec_contents(),
                "package"@,
                "description"@,
            ),
    {
        toml_table_str(self.contents.as_str(), "package", "description")
    }

    /// The package authors, where the manifest lists them.
    pub fn authors(&self) -> (r: Option<Vec<String>>)
        ensures
            r is Some <==> toml_str_array_key_of(self.spec_contents(), "package"@, "authors"@)
                is Some,
            r matches Some(v) ==> Some(v@.map_values(|s: String| s@)) == toml_str_array_key_of(
                self.spec_contents(),
                "package"@,
                "authors"@,
            ),
    {
        toml_table_str_array(self.contents.as_str(), "package", "authors")
    }

    /// The package name and version joined with a dash, where the
    /// manifest has both.
    pub fn versioned_name(&self) -> (r: Option<String>)
        ensures
            r is Some <==> (toml_str_key_of(self.spec_contents(), "package"@, "name"@) is Some
                && toml_str_key_of(self.spec_contents(), "package"@, "version"@) is Some),
            r matches Some(s) ==> Some(s@) == (match (
                toml_str_key_of(self.spec_contents(), "package"@, "name"@),
                toml_str_key_of(self.spec_contents(), "package"@, "version"@),
            ) {
                (Option::Some(n), Option::Some(v)) => Option::Some(n + "-"@ + v),
                _ => Option::None,
            }),
    {
        let name = self.name();
        let version = self.version();
        match (name, version) {
            (Some(n), Some(v)) => {
                let mut r = n;
                r.append("-");
                r.append(v.as_str());
                Some(r)
            },
            _ => None,
        }
    }
}

/// The projects and target of one release build invocation. Running the
/// build is the caller's step; the flags assembled here feed it.
pub struct BinaryBuild {
    projects: Vec<String>,
    target: Option<String>,
}

impl BinaryBuild {
    /// The projects named so far.
    pub closed spec fn spec_projects(&self) -> Seq<Seq<char>> {
        self.projects@.map_values(|s: String| s@)
    }

    /// The chosen target triple, where one was set.
    pub closed spec fn spec_target(&self) -> Option<Seq<char>> {
        match self.target {
            Option::Some(t) => Some(t@),
            Option::None => None,
        }
    }

    /// A build of no projects, for the host target.
    pub fn new() -> (r: Self)
        ensures
            r.spec_projects() =~= Seq::<Seq<char>>::empty(),
            r.spec_target() is None,
    {
        let r = BinaryBuild { projects: Vec::new(), target: None };
        proof {
            assert(r.spec_projects() =~= Seq::<Seq<char>>::empty());
        }
        r
    }

    /// Adds one project.
    pub fn with_project(&mut self, project: &str)
        ensures
            final(self).spec_projects() =~= old(self).spec_projects().push(project@),
            final(self).spec_target() == old(self).spec_target(),
    {
        self.projects.push(project.to_owned());
        proof {
            assert(final(self).spec_projects() =~= old(self).spec_projects().push(project@));
        }
    }

    /// Adds each of the given projects, in order.
    pub fn with_projects(&mut self, projects: &Vec<String>)
        ensures
            final(self).spec_projects() =~= old(self).spec_projects() + projects@.map_values(
                |s: String| s@,
            ),
            final(self).spec_target() == old(self).spec_target(),
    {
        let ghost n0 = self.projects@.len() as int;
        let mut i: usize = 0;
        #[verifier::loop_isolation(false)]
        while i < projects.len()
            invariant
                i <= projects@.len(),
                self.projects@.len() == n0 + i,
                forall|j: int| 0 <= j < n0 ==> self.projects@[j] == old(self).projects@[j],
                forall|j: int| 0 <= j < i ==> self.projects@[n0 + j] == projects@[j],
                self.target == old(self).target,
            decreases projects@.len() - i,
        {
            self.projects.push(projects[i].clone());
            i += 1;
        }
        proof {
            assert(final(self).spec_projects() =~= old(self).spec_projects() + projects@.map_values(
                (|s: String| s@),
            ));
        }
    }

    /// Sets the target triple.
    pub fn with_target(&mut self, target: &str)
        ensures
            final(self).spec_target() == Some(target@),
            final(self).spec_projects() == old(self).spec_projects(),
    {
        self.target = Some(target.to_owned());
    }

    /// The chosen target triple, where one was set.
    pub fn target(&self) -> (r: Option<&String>)
        ensures
            r is Some <==> self.spec_target() is Some,
            r matches Some(t) ==> Some(t@) == self.spec_target(),
    {
        self.target.as_ref()
    }

    /// One `-p=<project>` flag per named project, in order.
    pub fn project_flags(&self) -> (r: Vec<String>)
        ensures
            r@.len() == self.spec_projects().len(),
            forall|i: int|
                0 <= i < r@.len() ==> (#[trigger] r@[i])@ == "-p="@ + self.spec_projects()[i],
    {
        let mut r: Vec<String> = Vec::new();
        let mut i: usize = 0;
        #[verifier::loop_isolation(false)]
        while i < self.projects.len()
            invariant
                i <= self.projects@.len(),
                r@.len() == i,
                forall|j: int|
                    0 <= j < i ==> (#[trigger] r@[j])@ == "-p="@ + self.spec_projects()[j],
            decreases self.projects@.len() - i,
        {
            let mut flag = String::new();
            flag.append("-p=");
            flag.append(self.projects[i].as_str());
            r.push(flag);
            i += 1;
        }
        r
    }
}

} // verus!
