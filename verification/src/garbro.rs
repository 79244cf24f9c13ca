//! Command locations and file selection for converting GARbro archives to PNG.

use vstd::prelude::*;
use crate::paths::{extension, extension_of, join, join_chars, parent_of, path_parent, paths_equal, same_path};
use crate::text::{chars_of, string_of, string_views, equal_chars};

verus! {

/// The GARbro installation root and the names of its three programs.
pub struct CommandConfig {
    barbro_root: String,
    img_cmd: &'static str,
    gui_cmd: &'static str,
    csl_cmd: &'static str,
}

impl CommandConfig {
    /// The installation root.
    pub closed spec fn root(&self) -> Seq<char> {
        self.barbro_root@
    }

    /// The image converter, GUI and console program names.
    pub closed spec fn commands(&self) -> (Seq<char>, Seq<char>, Seq<char>) {
        (self.img_cmd@, self.gui_cmd@, self.csl_cmd@)
    }
}

/// The program names GARbro ships with.
pub open spec fn garbro_commands() -> (Seq<char>, Seq<char>, Seq<char>) {
    ("Image.Convert.exe"@, "GARbro.GUI.exe"@, "GARbro.Console.exe"@)
}

impl Default for CommandConfig {
    /// An empty root with GARbro's program names.
    fn default() -> (r: Self)
        ensures
            r.root() == Seq::<char>::empty(),
            r.commands() == garbro_commands(),
    {
        CommandConfig {
            barbro_root: String::new(),
            img_cmd: "Image.Convert.exe",
            gui_cmd: "GARbro.GUI.exe",
            csl_cmd: "GARbro.Console.exe",
        }
    }
}

impl CommandConfig {
    /// GARbro's programs under the installation root `root`.
    pub fn new(root: String) -> (r: Self)
        ensures
            r.root() == root@,
            r.commands() == garbro_commands(),
    {
        CommandConfig { barbro_root: root, ..CommandConfig::default() }
    }

    /// The path of the image converter.
    pub fn img_cmd_full(&self) -> (s: String)
        ensures
            s@ == join(self.root(), self.commands().0),
    {
        let r = chars_of(self.barbro_root.as_str());
        let c = chars_of(self.img_cmd);
        string_of(&join_chars(&r, &c))
    }

    /// The path of the GUI program.
    pub fn gui_cmd_full(&self) -> (s: String)
        ensures
            s@ == join(self.root(), self.commands().1),
    {
        let r = chars_of(self.barbro_root.as_str());
        let c = chars_of(self.gui_cmd);
        string_of(&join_chars(&r, &c))
    }

    /// The path of the console program.
    pub fn csl_cmd_full(&self) -> (s: String)
        ensures
            s@ == join(self.root(), self.commands().2),
    {
        let r = chars_of(self.barbro_root.as_str());
        let c = chars_of(self.csl_cmd);
        string_of(&join_chars(&r, &c))
    }
}

/// A picture needs converting unless its extension is `jpg`, `png` or `jpeg`.
pub open spec fn needs_conversion(path: Seq<char>) -> bool {
    match extension(path) {
        Some(e) => !(e == "jpg"@ || e == "png"@ || e == "jpeg"@),
        None => true,
    }
}

/// The members of `s` that `f` holds for, in order.
pub open spec fn keep_where(s: Seq<Seq<char>>, f: spec_fn(Seq<char>) -> bool) -> Seq<Seq<char>>
    decreases s.len(),
{
    if s.len() == 0 {
        s
    } else if f(s.last()) {
        keep_where(s.drop_last(), f).push(s.last())
    } else {
        keep_where(s.drop_last(), f)
    }
}

/// Whether the file at `path` needs converting to PNG.
pub fn needs_png_conversion(path: &str) -> (b: bool)
    ensures
        b == needs_conversion(path@),
{
    let p = chars_of(path);
    match extension_of(&p) {
        Some(e) => {
            let jpg = chars_of("jpg");
            let png = chars_of("png");
            let jpeg = chars_of("jpeg");
            !(equal_chars(&e, &jpg) || equal_chars(&e, &png) || equal_chars(&e, &jpeg))
        },
        None => true,
    }
}

/// The files that need converting and the ones that do not, each in the given order.
pub fn partition_raw_pictures(files: &Vec<String>) -> (r: (Vec<String>, Vec<String>))
    ensures
        string_views(r.0@) == keep_where(string_views(files@), |p: Seq<char>| needs_conversion(p)),
        string_views(r.1@) == keep_where(string_views(files@), |p: Seq<char>| !needs_conversion(p)),
{
    let mut raw: Vec<String> = Vec::new();
    let mut kept: Vec<String> = Vec::new();
    let mut i: usize = 0;
    while i < files.len()
        invariant
            i <= files.len(),
            string_views(raw@) == keep_where(string_views(files@).take(i as int), |p: Seq<char>| needs_conversion(p)),
            string_views(kept@) == keep_where(string_views(files@).take(i as int), |p: Seq<char>| !needs_conversion(p)),
        decreases files.len() - i,
    {
        let ghost pre = string_views(files@).take(i as int);
        assert(string_views(files@).take(i as int + 1).drop_last() == pre);
        assert(string_views(files@).take(i as int + 1).last() == files@[i as int]@);
        if needs_png_conversion(files[i].as_str()) {
            raw.push(files[i].clone());
            assert(string_views(raw@) =~= keep_where(pre, |p: Seq<char>| needs_conversion(p)).push(files@[i as int]@));
        } else {
            kept.push(files[i].clone());
            assert(string_views(kept@) =~= keep_where(pre, |p: Seq<char>| !needs_conversion(p)).push(files@[i as int]@));
        }
        i = i + 1;
    }
    assert(string_views(files@).take(files.len() as int) == string_views(files@));
    (raw, kept)
}

/// The file is an archive to unpack: its extension, or empty text where it has none,
/// is `ext`.
pub open spec fn is_archive(path: Seq<char>, ext: Seq<char>) -> bool {
    match extension(path) {
        Some(e) => e == ext,
        None => ext.len() == 0,
    }
}

/// Whether the file at `path` is an archive with extension `ext`.
pub fn is_archive_path(path: &str, ext: &str) -> (b: bool)
    ensures
        b == is_archive(path@, ext@),
{
    let e = chars_of(ext);
    match extension_of(&chars_of(path)) {
        Some(x) => equal_chars(&x, &e),
        None => e.len() == 0,
    }
}

/// The console program's arguments to unpack an archive.
pub fn uncompress_args(file: &str) -> (v: Vec<String>)
    ensures
        string_views(v@) == seq!["-x"@, file@],
{
    let v = vec!["-x".to_string(), file.to_string()];
    assert(string_views(v@) =~= seq!["-x"@, file@]);
    v
}

/// The converter's arguments to turn a picture into PNG.
pub fn convert_args(file: &str) -> (v: Vec<String>)
    ensures
        string_views(v@) == seq!["-t"@, "PNG"@, file@],
{
    let v = vec!["-t".to_string(), "PNG".to_string(), file.to_string()];
    assert(string_views(v@) =~= seq!["-t"@, "PNG"@, file@]);
    v
}

/// A picture that needs no conversion is copied to the output unless it already lies
/// directly in it.
pub open spec fn copied_as_is(path: Seq<char>, output_dir: Seq<char>) -> bool {
    !(path_parent(path) matches Some(q) && same_path(q, output_dir))
}

/// Whether a picture that needs no conversion is copied to `output_dir`.
pub fn needs_copy(path: &str, output_dir: &str) -> (b: bool)
    ensures
        b == copied_as_is(path@, output_dir@),
{
    match parent_of(path) {
        Some(q) => !paths_equal(q.as_str(), output_dir),
        None => true,
    }
}

/// What converting one directory's pictures to PNG does.
pub struct PngPlan {
    /// The pictures to convert, in order.
    pub convert: Vec<String>,
    /// The pictures to copy as they are, after the conversions.
    pub copy: Vec<String>,
}

/// The members of `s` that are copied as they are.
pub open spec fn copied(s: Seq<Seq<char>>, output_dir: Seq<char>) -> Seq<Seq<char>> {
    keep_where(keep_where(s, |p: Seq<char>| !needs_conversion(p)), |p: Seq<char>| copied_as_is(p, output_dir))
}

/// The plan for the files of one directory: nothing when none needs converting
/// (then nothing is copied either); otherwise the pictures to convert and those copied.
pub fn png_plan(files: &Vec<String>, output_dir: &str) -> (r: Option<PngPlan>)
    ensures
        keep_where(string_views(files@), |p: Seq<char>| needs_conversion(p)).len() == 0 ==> r is None,
        keep_where(string_views(files@), |p: Seq<char>| needs_conversion(p)).len() > 0 ==> (r matches Some(plan)
            && string_views(plan.convert@) == keep_where(string_views(files@), |p: Seq<char>| needs_conversion(p))
            && string_views(plan.copy@) == copied(string_views(files@), output_dir@)),
{
    let (raw, kept) = partition_raw_pictures(files);
    if raw.len() == 0 {
        return None;
    }
    let ghost kv = string_views(kept@);
    let mut copy: Vec<String> = Vec::new();
    let mut i: usize = 0;
    assert(string_views(copy@) =~= keep_where(kv.take(0), |p: Seq<char>| copied_as_is(p, output_dir@)));
    while i < kept.len()
        invariant
            i <= kept.len(),
            kv == string_views(kept@),
            string_views(copy@) == keep_where(kv.take(i as int), |p: Seq<char>| copied_as_is(p, output_dir@)),
        decreases kept.len() - i,
    {
        assert(kv.take(i as int + 1).drop_last() =~= kv.take(i as int));
        assert(kv.take(i as int + 1).last() == kept@[i as int]@);
        if needs_copy(kept[i].as_str(), output_dir) {
            copy.push(kept[i].clone());
            assert(string_views(copy@) =~= keep_where(kv.take(i as int), |p: Seq<char>| copied_as_is(p, output_dir@)).push(kept@[i as int]@));
        }
        i = i + 1;
    }
    assert(kv.take(kept.len() as int) =~= kv);
    Some(PngPlan { convert: raw, copy })
}

/// The plans for converting the pictures under each root directory, in order; the
/// files of each root are given as they are listed.
pub fn to_png(root_files: &Vec<Vec<String>>, output_dir: &str) -> (r: Vec<Option<PngPlan>>)
    ensures
        r.len() == root_files.len(),
        forall|k: int| 0 <= k < r.len() ==> {
            let fs = string_views(#[trigger] root_files@[k]@);
            &&& keep_where(fs, |p: Seq<char>| needs_conversion(p)).len() == 0 ==> r@[k] is None
            &&& keep_where(fs, |p: Seq<char>| needs_conversion(p)).len() > 0 ==> (r@[k] matches Some(plan)
                && string_views(plan.convert@) == keep_where(fs, |p: Seq<char>| needs_conversion(p))
                && string_views(plan.copy@) == copied(fs, output_dir@))
        },
{
    let mut r: Vec<Option<PngPlan>> = Vec::new();
    let mut k: usize = 0;
    while k < root_files.len()
        invariant
            k <= root_files.len(),
            r.len() == k,
            forall|q: int| 0 <= q < k ==> {
                let fs = string_views(#[trigger] root_files@[q]@);
                &&& keep_where(fs, |p: Seq<char>| needs_conversion(p)).len() == 0 ==> r@[q] is None
                &&& keep_where(fs, |p: Seq<char>| needs_conversion(p)).len() > 0 ==> (r@[q] matches Some(plan)
                    && string_views(plan.convert@) == keep_where(fs, |p: Seq<char>| needs_conversion(p))
                    && string_views(plan.copy@) == copied(fs, output_dir@))
            },
        decreases root_files.len() - k,
    {
        r.push(png_plan(&root_files[k], output_dir));
        k = k + 1;
    }
    r
}

/// The error when a tool run fails on a file.
pub fn failure_message(action: &str, file: &str) -> (s: String)
    ensures
        s@ == "Failed to "@ + action@ + " "@ + file@,
{
    let a = crate::text::concat("Failed to ", action);
    let b = crate::text::concat(a.as_str(), " ");
    crate::text::concat(b.as_str(), file)
}


/// The next thing a conversion run over several root directories does.
pub enum PngAction {
    /// List the files under root `k`.
    ListRoot(usize),
    /// Convert this picture to PNG.
    Convert(String),
    /// Copy this picture as it is.
    Copy(String),
    /// Stop: a conversion failed; the message.
    Fail(String),
    /// Every root is done.
    Finish,
}

/// A conversion run over `roots` root directories, one after another: the root at
/// hand, its plan once its files are listed, how many of the plan's conversions and
/// copies are done, and the failure that stopped the run, if any.
pub struct PngRun {
    pub roots: usize,
    pub root: usize,
    pub plan: Option<PngPlan>,
    pub converted: usize,
    pub copied: usize,
    pub failure: Option<String>,
}

/// The run is consistent: the root is in range while one is at hand; under a plan the
/// conversions come before the copies, and something is left to do.
pub open spec fn run_ok(r: PngRun) -> bool {
    &&& r.root <= r.roots
    &&& r.plan matches Some(p) ==> {
        &&& r.root < r.roots
        &&& r.converted <= p.convert.len()
        &&& r.copied <= p.copy.len()
        &&& r.converted < p.convert.len() ==> r.copied == 0
        &&& !(r.converted == p.convert.len() && r.copied == p.copy.len())
    }
}

/// The plan's conversion and copy after the current one leave nothing to do.
pub open spec fn last_item(r: PngRun) -> bool {
    r.plan matches Some(p) && if r.converted < p.convert.len() {
        r.converted + 1 == p.convert.len() && p.copy.len() == 0
    } else {
        r.copied + 1 == p.copy.len()
    }
}

/// The state after the current item of the plan is done: the next item, or the next
/// root when the plan is through.
pub open spec fn stepped(before: PngRun, after: PngRun) -> bool {
    &&& after.roots == before.roots
    &&& after.failure is None
    &&& last_item(before) ==> after.root == before.root + 1 && after.plan is None
    &&& !last_item(before) ==> after.root == before.root && after.plan == before.plan && (if before.converted < before.plan->0.convert.len() {
        after.converted == before.converted + 1 && after.copied == before.copied
    } else {
        after.converted == before.converted && after.copied == before.copied + 1
    })
}

/// The action the run's state asks for.
pub open spec fn action_of(r: PngRun) -> PngAction {
    match r.failure {
        Some(m) => PngAction::Fail(m),
        None => match r.plan {
            None => if r.root < r.roots { PngAction::ListRoot(r.root) } else { PngAction::Finish },
            Some(p) => if r.converted < p.convert.len() {
                PngAction::Convert(p.convert[r.converted as int])
            } else {
                PngAction::Copy(p.copy[r.copied as int])
            },
        },
    }
}

impl PngRun {
    /// A run over `roots` root directories, at the first one.
    pub fn new(roots: usize) -> (r: Self)
        ensures
            r.roots == roots && r.root == 0 && r.plan is None && r.failure is None,
            run_ok(r),
    {
        PngRun { roots, root: 0, plan: None, converted: 0, copied: 0, failure: None }
    }

    /// What to do next.
    pub fn next_action(&self) -> (a: PngAction)
        requires
            run_ok(*self),
        ensures
            a == action_of(*self),
    {
        match &self.failure {
            Some(m) => PngAction::Fail(m.clone()),
            None => match &self.plan {
                None => if self.root < self.roots { PngAction::ListRoot(self.root) } else { PngAction::Finish },
                Some(p) => if self.converted < p.convert.len() {
                    PngAction::Convert(p.convert[self.converted].clone())
                } else {
                    PngAction::Copy(p.copy[self.copied].clone())
                },
            },
        }
    }

    /// The files of the root at hand were listed: its plan is made; a root with
    /// nothing to convert is passed over at once (the answer is then `false`).
    pub fn on_listed(&mut self, files: &Vec<String>, output_dir: &str) -> (converting: bool)
        requires
            run_ok(*old(self)),
            action_of(*old(self)) is ListRoot,
        ensures
            run_ok(*final(self)),
            final(self).roots == old(self).roots && final(self).failure is None,
            converting == (keep_where(string_views(files@), |p: Seq<char>| needs_conversion(p)).len() > 0),
            !converting ==> final(self).plan is None && final(self).root == old(self).root + 1,
            converting ==> final(self).root == old(self).root && final(self).converted == 0 && final(self).copied == 0
                && (final(self).plan matches Some(plan) && string_views(plan.convert@) == keep_where(
                string_views(files@),
                |p: Seq<char>| needs_conversion(p),
            ) && string_views(plan.copy@) == copied(string_views(files@), output_dir@)),
    {
        let plan = png_plan(files, output_dir);
        self.converted = 0;
        self.copied = 0;
        match plan {
            None => {
                self.root = self.root + 1;
                false
            },
            Some(p) => {
                self.plan = Some(p);
                true
            },
        }
    }

    fn step(&mut self)
        requires
            run_ok(*old(self)),
            old(self).failure is None,
            old(self).plan is Some,
        ensures
            run_ok(*final(self)),
            stepped(*old(self), *final(self)),
    {
        let (cl, pl) = match &self.plan {
            Some(p) => (p.convert.len(), p.copy.len()),
            None => (0, 0),
        };
        let last = if self.converted < cl { self.converted + 1 == cl && pl == 0 } else { self.copied + 1 == pl };
        if last {
            self.plan = None;
            self.converted = 0;
            self.copied = 0;
            self.root = self.root + 1;
        } else if self.converted < cl {
            self.converted = self.converted + 1;
        } else {
            self.copied = self.copied + 1;
        }
    }

    /// The conversion asked for was run: on success the run goes on; a failure stops
    /// it with the message naming the picture.
    pub fn on_converted(&mut self, succeeded: bool)
        requires
            run_ok(*old(self)),
            action_of(*old(self)) is Convert,
        ensures
            run_ok(*final(self)),
            succeeded ==> stepped(*old(self), *final(self)),
            !succeeded ==> final(self).roots == old(self).roots && final(self).root == old(self).root && (
            final(self).failure matches Some(m) && (action_of(*old(self)) matches PngAction::Convert(f) && m@
                == "Failed to convert "@ + f@)),
    {
        if succeeded {
            self.step();
        } else {
            let file = match self.next_action() {
                PngAction::Convert(f) => f,
                _ => String::new(),
            };
            let m = failure_message("convert", file.as_str());
            proof {
                reveal_strlit("convert");
                reveal_strlit(" ");
                reveal_strlit("Failed to ");
                reveal_strlit("Failed to convert ");
            }
            assert(m@ =~= "Failed to convert "@ + file@);
            self.failure = Some(m);
        }
    }

    /// The copy asked for was made: on to the next item.
    pub fn on_copied(&mut self)
        requires
            run_ok(*old(self)),
            action_of(*old(self)) is Copy,
        ensures
            run_ok(*final(self)),
            stepped(*old(self), *final(self)),
    {
        self.step();
    }
}

} // verus!
