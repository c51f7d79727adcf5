//! Runtime translation of bundle placeholders into concrete paths,
//! including Proton prefixes. The bundle carries no platform-specific data;
//! this is runtime policy.

use vstd::prelude::*;
use crate::model::{is_absolute_path, is_absolute_spec, Platform, Store};
use crate::paths::{file_name, file_name_of, has_parent_component, has_parent_step, join, path_join};
use crate::resolve::{Environment, Install, Probe};
use crate::text::{
    chars_eq, chars_of, eq_lit, find_char, first_index, has_char, lemma_first_index, push_all,
    slashes, slice_chars, string_of, to_slashes,
};

verus! {

/// The text of an optional string.
pub open spec fn opt_view(o: Option<String>) -> Option<Seq<char>> {
    match o {
        Some(s) => Some(s@),
        None => None,
    }
}

/// The characters of an optional character vector.
pub open spec fn vopt(o: Option<Vec<char>>) -> Option<Seq<char>> {
    match o {
        Some(v) => Some(v@),
        None => None,
    }
}

/// The texts of a list of strings.
pub open spec fn strs(v: Seq<String>) -> Seq<Seq<char>> {
    v.map_values(|s: String| s@)
}

/// The known folder stored under `key`: the first entry with that key.
pub open spec fn folder_of(folders: Seq<(String, String)>, key: Seq<char>) -> Option<Seq<char>>
    decreases folders.len(),
{
    if folders.len() == 0 {
        None
    } else if folders[0].0@ == key {
        Some(folders[0].1@)
    } else {
        folder_of(folders.drop_first(), key)
    }
}

fn folder(folders: &Vec<(String, String)>, key: &[char]) -> (r: Option<Vec<char>>)
    ensures
        vopt(r) == folder_of(folders@, key@),
{
    let mut i: usize = 0;
    assert(folders@.skip(0) == folders@);
    while i < folders.len()
        invariant
            i <= folders.len(),
            folder_of(folders@, key@) == folder_of(folders@.skip(i as int), key@),
        decreases folders.len() - i,
    {
        assert(folders@.skip(i as int)[0] == folders@[i as int]);
        let k = chars_of(folders[i].0.as_str());
        if chars_eq(&k, key) {
            return Some(chars_of(folders[i].1.as_str()));
        }
        assert(folders@.skip(i as int).drop_first() == folders@.skip(i + 1));
        i = i + 1;
    }
    assert(folders@.skip(i as int).len() == 0);
    None
}

fn opt_chars(o: &Option<String>) -> (r: Option<Vec<char>>)
    ensures
        vopt(r) == opt_view(*o),
{
    match o {
        Some(s) => Some(chars_of(s.as_str())),
        None => None,
    }
}

/// `{STORE_USER_ID}`: the detected store user id, or for Steam the name of
/// the current user's `userdata` folder.
pub open spec fn store_user_id_spec(install: Install, env: Environment) -> Option<Seq<char>> {
    match env.store_user_id {
        Some(id) => Some(id@),
        None => if install.store == Store::Steam {
            match env.steam_userdata {
                Some(p) => file_name(p@),
                None => None,
            }
        } else {
            None
        },
    }
}

fn store_user_id(install: &Install, env: &Environment) -> (r: Option<Vec<char>>)
    ensures
        vopt(r) == store_user_id_spec(*install, *env),
{
    if let Some(id) = &env.store_user_id {
        return Some(chars_of(id.as_str()));
    }
    if install.store == Store::Steam {
        return match &env.steam_userdata {
            Some(p) => {
                let v = chars_of(p.as_str());
                file_name_of(&v)
            },
            None => None,
        };
    }
    None
}

/// `<prefix>/drive_c`.
pub open spec fn drive_c(prefix: Seq<char>) -> Seq<char> {
    path_join(prefix, "drive_c"@)
}

/// `<prefix>/drive_c/users/<user>`.
pub open spec fn user_home(prefix: Seq<char>, user: Seq<char>) -> Seq<char> {
    path_join(path_join(drive_c(prefix), "users"@), user)
}

/// A Windows placeholder translated into a Proton prefix, for the profile
/// `user`.
pub open spec fn proton_spec(
    name: Seq<char>,
    prefix: Seq<char>,
    install: Install,
    env: Environment,
    user: Seq<char>,
) -> Option<Seq<char>> {
    if name == "INSTALL_DIR"@ {
        Some(install.install_dir@)
    } else if name == "APPDATA"@ {
        Some(path_join(user_home(prefix, user), "AppData/Roaming"@))
    } else if name == "LOCALAPPDATA"@ {
        Some(path_join(user_home(prefix, user), "AppData/Local"@))
    } else if name == "LOCALLOW"@ {
        Some(path_join(user_home(prefix, user), "AppData/LocalLow"@))
    } else if name == "DOCUMENTS"@ {
        Some(path_join(user_home(prefix, user), "Documents"@))
    } else if name == "PUBLIC"@ {
        Some(path_join(drive_c(prefix), "users/Public"@))
    } else if name == "PROGRAMDATA"@ {
        Some(path_join(drive_c(prefix), "ProgramData"@))
    } else if name == "PROGRAMFILES"@ {
        Some(path_join(drive_c(prefix), "Program Files"@))
    } else if name == "WINDIR"@ {
        Some(path_join(drive_c(prefix), "windows"@))
    } else if name == "HOME"@ {
        Some(user_home(prefix, user))
    } else if name == "STORE_USER_ID"@ {
        store_user_id_spec(install, env)
    } else if name == "STEAM_USERDATA"@ {
        opt_view(env.steam_userdata)
    } else {
        None
    }
}

fn join_lit(base: &[char], part: &str) -> (r: Vec<char>)
    ensures
        r@ == path_join(base@, part@),
{
    let p = chars_of(part);
    join(base, &p)
}

fn proton(name: &[char], prefix: &[char], install: &Install, env: &Environment, user: &[char]) -> (r:
    Option<Vec<char>>)
    ensures
        vopt(r) == proton_spec(name@, prefix@, *install, *env, user@),
{
    if eq_lit(name, "INSTALL_DIR") {
        return Some(chars_of(install.install_dir.as_str()));
    }
    let drive = join_lit(prefix, "drive_c");
    let users = join_lit(&drive, "users");
    let home = join(&users, user);
    if eq_lit(name, "APPDATA") {
        Some(join_lit(&home, "AppData/Roaming"))
    } else if eq_lit(name, "LOCALAPPDATA") {
        Some(join_lit(&home, "AppData/Local"))
    } else if eq_lit(name, "LOCALLOW") {
        Some(join_lit(&home, "AppData/LocalLow"))
    } else if eq_lit(name, "DOCUMENTS") {
        Some(join_lit(&home, "Documents"))
    } else if eq_lit(name, "PUBLIC") {
        Some(join_lit(&drive, "users/Public"))
    } else if eq_lit(name, "PROGRAMDATA") {
        Some(join_lit(&drive, "ProgramData"))
    } else if eq_lit(name, "PROGRAMFILES") {
        Some(join_lit(&drive, "Program Files"))
    } else if eq_lit(name, "WINDIR") {
        Some(join_lit(&drive, "windows"))
    } else if eq_lit(name, "HOME") {
        Some(home)
    } else if eq_lit(name, "STORE_USER_ID") {
        store_user_id(install, env)
    } else if eq_lit(name, "STEAM_USERDATA") {
        opt_chars(&env.steam_userdata)
    } else {
        None
    }
}

/// The Windows known folders, which only a Windows build resolves natively.
pub open spec fn is_windows_folder(name: Seq<char>) -> bool {
    name == "APPDATA"@ || name == "LOCALAPPDATA"@ || name == "LOCALLOW"@ || name == "DOCUMENTS"@
        || name == "PUBLIC"@ || name == "PROGRAMDATA"@ || name == "PROGRAMFILES"@ || name
        == "WINDIR"@
}

/// The value of one placeholder for this install, with `user` as the Proton
/// profile.
pub open spec fn token_spec(name: Seq<char>, install: Install, env: Environment, user: Seq<
    char,
>) -> Option<Seq<char>> {
    let through_proton = match install.proton_prefix {
        Some(prefix) => proton_spec(name, prefix@, install, env, user),
        None => None,
    };
    if through_proton is Some {
        through_proton
    } else if name == "INSTALL_DIR"@ {
        Some(install.install_dir@)
    } else if name == "STORE_USER_ID"@ {
        store_user_id_spec(install, env)
    } else if name == "STEAM_USERDATA"@ {
        opt_view(env.steam_userdata)
    } else if is_windows_folder(name) && install.platform == Platform::Windows {
        folder_of(env.folders@, name)
    } else if (name == "XDG_DATA_HOME"@ || name == "XDG_CONFIG_HOME"@) && install.platform
        == Platform::Linux {
        folder_of(env.folders@, name)
    } else if name == "HOME"@ {
        folder_of(env.folders@, "HOME"@)
    } else {
        None
    }
}

fn windows_folder(name: &[char]) -> (r: bool)
    ensures
        r == is_windows_folder(name@),
{
    eq_lit(name, "APPDATA") || eq_lit(name, "LOCALAPPDATA") || eq_lit(name, "LOCALLOW") || eq_lit(
        name,
        "DOCUMENTS",
    ) || eq_lit(name, "PUBLIC") || eq_lit(name, "PROGRAMDATA") || eq_lit(name, "PROGRAMFILES")
        || eq_lit(name, "WINDIR")
}

fn token(name: &[char], install: &Install, env: &Environment, user: &[char]) -> (r: Option<
    Vec<char>,
>)
    ensures
        vopt(r) == token_spec(name@, *install, *env, user@),
{
    if let Some(prefix) = &install.proton_prefix {
        let p = chars_of(prefix.as_str());
        let through = proton(name, &p, install, env, user);
        if through.is_some() {
            return through;
        }
    }
    if eq_lit(name, "INSTALL_DIR") {
        Some(chars_of(install.install_dir.as_str()))
    } else if eq_lit(name, "STORE_USER_ID") {
        store_user_id(install, env)
    } else if eq_lit(name, "STEAM_USERDATA") {
        opt_chars(&env.steam_userdata)
    } else if windows_folder(name) && install.platform == Platform::Windows {
        folder(&env.folders, name)
    } else if (eq_lit(name, "XDG_DATA_HOME") || eq_lit(name, "XDG_CONFIG_HOME"))
        && install.platform == Platform::Linux {
        folder(&env.folders, name)
    } else if eq_lit(name, "HOME") {
        folder(&env.folders, name)
    } else {
        None
    }
}

/// Placeholders replaced left to right: each `{NAME}` by its value, failing
/// on an unclosed `{` or a placeholder without a value.
pub open spec fn subst(rest: Seq<char>, install: Install, env: Environment, user: Seq<char>) -> Option<
    Seq<char>,
>
    decreases rest.len(),
{
    match first_index(rest, '{') {
        None => Some(rest),
        Some(open) => match first_index(rest.skip(open), '}') {
            None => None,
            Some(off) => if 0 <= open && 0 <= off && open + off < rest.len() {
                let close = open + off;
                match token_spec(rest.subrange(open + 1, close), install, env, user) {
                    None => None,
                    Some(t) => match subst(rest.skip(close + 1), install, env, user) {
                        None => None,
                        Some(tail) => Some(rest.take(open) + t + tail),
                    },
                }
            } else {
                None
            },
        },
    }
}

/// Two installs that agree on everything a template reads: store,
/// platform, install folder and Proton prefix.
pub open spec fn same_target(a: Install, b: Install) -> bool {
    &&& a.store == b.store
    &&& a.platform == b.platform
    &&& a.install_dir@ == b.install_dir@
    &&& opt_view(a.proton_prefix) == opt_view(b.proton_prefix)
}

/// Templates resolve alike for installs that agree on what they read.
pub proof fn lemma_template_same_target(template: Seq<char>, a: Install, b: Install, env: Environment, user: Seq<char>)
    requires
        same_target(a, b),
    ensures
        template_spec(template, a, env, user) == template_spec(template, b, env, user),
{
    lemma_subst_same_target(slashes(template), a, b, env, user);
}

proof fn lemma_subst_same_target(rest: Seq<char>, a: Install, b: Install, env: Environment, user: Seq<char>)
    requires
        same_target(a, b),
    ensures
        subst(rest, a, env, user) == subst(rest, b, env, user),
    decreases rest.len(),
{
    match first_index(rest, '{') {
        None => {},
        Some(open) => match first_index(rest.skip(open), '}') {
            None => {},
            Some(off) => if 0 <= open && 0 <= off && open + off < rest.len() {
                let close = open + off;
                let name = rest.subrange(open + 1, close);
                assert(token_spec(name, a, env, user) == token_spec(name, b, env, user)) by {
                    assert(store_user_id_spec(a, env) == store_user_id_spec(b, env));
                    match a.proton_prefix {
                        Some(pa) => {
                            let pb = b.proton_prefix->0;
                            assert(pa@ == pb@);
                            assert(proton_spec(name, pa@, a, env, user) == proton_spec(name, pb@, b, env, user));
                        },
                        None => {},
                    }
                }
                lemma_subst_same_target(rest.skip(close + 1), a, b, env, user);
            },
        },
    }
}

/// Two environments that agree on everything a template reads: the known
/// folders, the Steam user's `userdata` folder and the store user id.
pub open spec fn same_places(a: Environment, b: Environment) -> bool {
    &&& a.folders@ == b.folders@
    &&& a.steam_userdata == b.steam_userdata
    &&& a.store_user_id == b.store_user_id
}

/// A template resolves alike in two environments that agree on its places.
pub proof fn lemma_template_same_places(template: Seq<char>, install: Install, a: Environment, b: Environment, user: Seq<char>)
    requires
        same_places(a, b),
    ensures
        template_spec(template, install, a, user) == template_spec(template, install, b, user),
{
    lemma_subst_same_places(slashes(template), install, a, b, user);
}

proof fn lemma_subst_same_places(rest: Seq<char>, install: Install, a: Environment, b: Environment, user: Seq<char>)
    requires
        same_places(a, b),
    ensures
        subst(rest, install, a, user) == subst(rest, install, b, user),
    decreases rest.len(),
{
    match first_index(rest, '{') {
        None => {},
        Some(open) => match first_index(rest.skip(open), '}') {
            None => {},
            Some(off) => if 0 <= open && 0 <= off && open + off < rest.len() {
                let close = open + off;
                let name = rest.subrange(open + 1, close);
                assert(token_spec(name, install, a, user) == token_spec(name, install, b, user)) by {
                    assert(store_user_id_spec(install, a) == store_user_id_spec(install, b));
                    match install.proton_prefix {
                        Some(p) => {
                            assert(proton_spec(name, p@, install, a, user) == proton_spec(name, p@, install, b, user));
                        },
                        None => {},
                    }
                }
                lemma_subst_same_places(rest.skip(close + 1), install, a, b, user);
            },
        },
    }
}

/// `o` with `head` in front, when present.
pub open spec fn prepend(head: Seq<char>, o: Option<Seq<char>>) -> Option<Seq<char>> {
    match o {
        Some(t) => Some(head + t),
        None => None,
    }
}

/// What a bundle `dir` template resolves to for this install, with `user`
/// as the Proton profile: backslashes become `/`, placeholders are
/// replaced, and the result must be an absolute path free of `{ } < >` and
/// of `..` components.
pub open spec fn template_spec(
    template: Seq<char>,
    install: Install,
    env: Environment,
    user: Seq<char>,
) -> Option<Seq<char>> {
    match subst(slashes(template), install, env, user) {
        None => None,
        Some(out) => if out.contains('{') || out.contains('}') || out.contains('<')
            || out.contains('>') {
            None
        } else if !is_absolute_spec(out) {
            None
        } else if has_parent_step(out) {
            None
        } else {
            Some(out)
        },
    }
}

fn substitute(n: &Vec<char>, install: &Install, env: &Environment, user: &[char]) -> (r: Option<
    Vec<char>,
>)
    ensures
        vopt(r) == subst(n@, *install, *env, user@),
{
    let mut out: Vec<char> = Vec::new();
    let mut pos: usize = 0;
    assert(n@.skip(0) == n@);
    while pos < n.len()
        invariant
            pos <= n.len(),
            subst(n@, *install, *env, user@) == prepend(
                out@,
                subst(n@.skip(pos as int), *install, *env, user@),
            ),
        decreases n.len() - pos,
    {
        let rest = slice_chars(n, pos, n.len());
        assert(rest@ == n@.skip(pos as int));
        match find_char(&rest, '{') {
            None => {
                push_all(&mut out, &rest);
                assert(n@.skip(n.len() as int) == Seq::<char>::empty());
                assert(subst(Seq::<char>::empty(), *install, *env, user@) == Some(
                    Seq::<char>::empty(),
                ));
                assert(out@ + Seq::<char>::empty() == out@);
                return Some(out);
            },
            Some(open) => {
                proof {
                    lemma_first_index(rest@, '{');
                }
                let tail = slice_chars(&rest, open, rest.len());
                assert(tail@ == rest@.skip(open as int));
                match find_char(&tail, '}') {
                    None => {
                        return None;
                    },
                    Some(off) => {
                        proof {
                            lemma_first_index(tail@, '}');
                        }
                        let close = open + off;
                        let name = slice_chars(&rest, open + 1, close);
                        match token(&name, install, env, user) {
                            None => {
                                return None;
                            },
                            Some(t) => {
                                let head = slice_chars(&rest, 0, open);
                                let ghost before = out@;
                                push_all(&mut out, &head);
                                push_all(&mut out, &t);
                                assert(rest@.skip(close + 1) == n@.skip(pos + close + 1));
                                proof {
                                    let s = subst(n@.skip(pos + close + 1), *install, *env, user@);
                                    match s {
                                        Some(tl) => {
                                            assert(before + (rest@.take(open as int) + t@ + tl)
                                                == out@ + tl);
                                        },
                                        None => {},
                                    }
                                }
                                pos = pos + close + 1;
                            },
                        }
                    },
                }
            },
        }
    }
    assert(n@.skip(pos as int) == Seq::<char>::empty());
    assert(out@ + Seq::<char>::empty() == out@);
    Some(out)
}

/// Resolves one bundle `dir` template, with `user` as the Proton profile.
/// `None` when a placeholder is unavailable for this install (the candidate
/// is then dropped).
pub fn resolve(template: &str, install: &Install, environment: &Environment, user: &str) -> (r:
    Option<String>)
    ensures
        opt_view(r) == template_spec(template@, *install, *environment, user@),
{
    let raw = chars_of(template);
    let normalized = to_slashes(&raw);
    let u = chars_of(user);
    let out = match substitute(&normalized, install, environment, &u) {
        Some(out) => out,
        None => {
            return None;
        },
    };
    if has_char(&out, '{') || has_char(&out, '}') || has_char(&out, '<') || has_char(&out, '>') {
        return None;
    }
    if !is_absolute_path(&out) {
        return None;
    }
    if has_parent_component(&out) {
        return None;
    }
    Some(string_of(&out))
}

/// A folder under `drive_c/users` that is no user's own profile: Proton's
/// default `steamuser`, or the shared `Public` profile.
pub open spec fn not_own_profile(n: Seq<char>) -> bool {
    n == "steamuser"@ || n == "Public"@
}

fn not_own_profile_of(n: &[char]) -> (r: bool)
    ensures
        r == not_own_profile(n@),
{
    eq_lit(n, "steamuser") || eq_lit(n, "Public")
}

/// Whether `children[i]` is the one user profile there is.
pub open spec fn sole_other(children: Seq<String>, i: int) -> bool {
    &&& 0 <= i < children.len()
    &&& !not_own_profile(children[i]@)
    &&& forall|k: int|
        0 <= k < children.len() ==> not_own_profile(#[trigger] children[k]@) || children[k]@ == children[i]@
}

/// The Proton profile: the one user profile when exactly one exists besides
/// `steamuser` and Windows' shared profiles, else `steamuser`.
pub open spec fn profile_spec(children: Seq<String>) -> Seq<char> {
    if exists|i: int| sole_other(children, i) {
        children[choose|i: int| sole_other(children, i)]@
    } else {
        "steamuser"@
    }
}

/// Picks the Proton profile among the folders under `drive_c/users`.
pub fn pick_profile(children: &[String]) -> (r: String)
    ensures
        r@ == profile_spec(children@),
{
    let mut found: Option<usize> = None;
    let mut alone = true;
    let mut i: usize = 0;
    while i < children.len()
        invariant
            i <= children.len(),
            found is None ==> forall|k: int| 0 <= k < i ==> not_own_profile(#[trigger] children@[k]@),
            found matches Some(f) ==> f < i && !not_own_profile(children@[f as int]@),
            found matches Some(f) ==> (alone <==> forall|k: int|
                0 <= k < i ==> not_own_profile(#[trigger] children@[k]@) || children@[k]@ == children@[f as int]@),
        decreases children.len() - i,
    {
        let name = chars_of(children[i].as_str());
        if !not_own_profile_of(&name) {
            match found {
                None => {
                    found = Some(i);
                    alone = true;
                },
                Some(f) => {
                    let first = chars_of(children[f].as_str());
                    if !chars_eq(&name, &first) {
                        alone = false;
                    }
                },
            }
        }
        i = i + 1;
    }
    match found {
        Some(f) => {
            if alone {
                assert(sole_other(children@, f as int));
                proof {
                    let c = choose|i: int| sole_other(children@, i);
                    assert(children@[c]@ == children@[f as int]@);
                }
                return children[f].clone();
            }
            proof {
                if exists|i: int| sole_other(children@, i) {
                    let c = choose|i: int| sole_other(children@, i);
                    assert(children@[f as int]@ == children@[c]@);
                    let k = choose|k: int|
                        0 <= k < children@.len() && !(not_own_profile(children@[k]@) || children@[k]@
                            == children@[f as int]@);
                    assert(not_own_profile(children@[k]@) || children@[k]@ == children@[c]@);
                }
            }
        },
        None => {
            proof {
                if exists|i: int| sole_other(children@, i) {
                    let c = choose|i: int| sole_other(children@, i);
                    assert(not_own_profile(children@[c]@));
                }
            }
        },
    }
    string_of(&chars_of("steamuser"))
}

/// The one user profile under `drive_c/users`, else `steamuser`:
/// asks the probe for the folders under the prefix's `drive_c/users`.
pub(crate) fn profile<P: Probe>(prefix: &str, probe: &P) -> (r: String)
    ensures
        exists|children: Seq<String>| r@ == #[trigger] profile_spec(children),
{
    let p = chars_of(prefix);
    let users = join_lit(&p, "drive_c/users");
    let dir = string_of(&users);
    let children = probe.child_dirs(dir.as_str());
    let r = pick_profile(children.as_slice());
    assert(r@ == profile_spec(children@));
    r
}

/// The Windows known folders by placeholder name.
pub open spec fn windows_folder_names() -> Seq<Seq<char>> {
    seq!["APPDATA"@, "LOCALAPPDATA"@, "LOCALLOW"@, "DOCUMENTS"@, "PUBLIC"@, "PROGRAMDATA"@, "PROGRAMFILES"@, "WINDIR"@]
}

/// Without a Proton prefix, a Windows known folder resolves to the folder
/// the environment lists under its name on a Windows install, and to
/// nothing on any other.
pub proof fn law_windows_folders_resolve_only_for_windows(k: int, install: Install, env: Environment, user: Seq<char>)
    requires
        0 <= k < windows_folder_names().len(),
        install.proton_prefix is None,
    ensures
        token_spec(windows_folder_names()[k], install, env, user) == (if install.platform == Platform::Windows {
            folder_of(env.folders@, windows_folder_names()[k])
        } else {
            None
        }),
{
    reveal_strlit("APPDATA");
    reveal_strlit("LOCALAPPDATA");
    reveal_strlit("LOCALLOW");
    reveal_strlit("DOCUMENTS");
    reveal_strlit("PUBLIC");
    reveal_strlit("PROGRAMDATA");
    reveal_strlit("PROGRAMFILES");
    reveal_strlit("WINDIR");
    reveal_strlit("INSTALL_DIR");
    reveal_strlit("STORE_USER_ID");
    reveal_strlit("STEAM_USERDATA");
    reveal_strlit("HOME");
    reveal_strlit("XDG_DATA_HOME");
    reveal_strlit("XDG_CONFIG_HOME");
    let n = windows_folder_names()[k];
    assert(is_windows_folder(n));
    assert(n != "INSTALL_DIR"@ && n != "STORE_USER_ID"@ && n != "STEAM_USERDATA"@ && n != "HOME"@ && n
        != "XDG_DATA_HOME"@ && n != "XDG_CONFIG_HOME"@) by {
        if k == 0 {
            assert(n == "APPDATA"@);
            assert("APPDATA"@.len() != "INSTALL_DIR"@.len());
            assert("APPDATA"@.len() != "STORE_USER_ID"@.len());
            assert("APPDATA"@.len() != "STEAM_USERDATA"@.len());
            assert("APPDATA"@.len() != "HOME"@.len());
            assert("APPDATA"@.len() != "XDG_DATA_HOME"@.len());
            assert("APPDATA"@.len() != "XDG_CONFIG_HOME"@.len());
        } else if k == 1 {
            assert(n == "LOCALAPPDATA"@);
            assert("LOCALAPPDATA"@.len() != "INSTALL_DIR"@.len());
            assert("LOCALAPPDATA"@.len() != "STORE_USER_ID"@.len());
            assert("LOCALAPPDATA"@.len() != "STEAM_USERDATA"@.len());
            assert("LOCALAPPDATA"@.len() != "HOME"@.len());
            assert("LOCALAPPDATA"@.len() != "XDG_DATA_HOME"@.len());
            assert("LOCALAPPDATA"@.len() != "XDG_CONFIG_HOME"@.len());
        } else if k == 2 {
            assert(n == "LOCALLOW"@);
            assert("LOCALLOW"@.len() != "INSTALL_DIR"@.len());
            assert("LOCALLOW"@.len() != "STORE_USER_ID"@.len());
            assert("LOCALLOW"@.len() != "STEAM_USERDATA"@.len());
            assert("LOCALLOW"@.len() != "HOME"@.len());
            assert("LOCALLOW"@.len() != "XDG_DATA_HOME"@.len());
            assert("LOCALLOW"@.len() != "XDG_CONFIG_HOME"@.len());
        } else if k == 3 {
            assert(n == "DOCUMENTS"@);
            assert("DOCUMENTS"@.len() != "INSTALL_DIR"@.len());
            assert("DOCUMENTS"@.len() != "STORE_USER_ID"@.len());
            assert("DOCUMENTS"@.len() != "STEAM_USERDATA"@.len());
            assert("DOCUMENTS"@.len() != "HOME"@.len());
            assert("DOCUMENTS"@.len() != "XDG_DATA_HOME"@.len());
            assert("DOCUMENTS"@.len() != "XDG_CONFIG_HOME"@.len());
        } else if k == 4 {
            assert(n == "PUBLIC"@);
            assert("PUBLIC"@.len() != "INSTALL_DIR"@.len());
            assert("PUBLIC"@.len() != "STORE_USER_ID"@.len());
            assert("PUBLIC"@.len() != "STEAM_USERDATA"@.len());
            assert("PUBLIC"@.len() != "HOME"@.len());
            assert("PUBLIC"@.len() != "XDG_DATA_HOME"@.len());
            assert("PUBLIC"@.len() != "XDG_CONFIG_HOME"@.len());
        } else if k == 5 {
            assert(n == "PROGRAMDATA"@);
            assert("PROGRAMDATA"@[0] != "INSTALL_DIR"@[0]);
            assert("PROGRAMDATA"@.len() != "STORE_USER_ID"@.len());
            assert("PROGRAMDATA"@.len() != "STEAM_USERDATA"@.len());
            assert("PROGRAMDATA"@.len() != "HOME"@.len());
            assert("PROGRAMDATA"@.len() != "XDG_DATA_HOME"@.len());
            assert("PROGRAMDATA"@.len() != "XDG_CONFIG_HOME"@.len());
        } else if k == 6 {
            assert(n == "PROGRAMFILES"@);
            assert("PROGRAMFILES"@.len() != "INSTALL_DIR"@.len());
            assert("PROGRAMFILES"@.len() != "STORE_USER_ID"@.len());
            assert("PROGRAMFILES"@.len() != "STEAM_USERDATA"@.len());
            assert("PROGRAMFILES"@.len() != "HOME"@.len());
            assert("PROGRAMFILES"@.len() != "XDG_DATA_HOME"@.len());
            assert("PROGRAMFILES"@.len() != "XDG_CONFIG_HOME"@.len());
        } else if k == 7 {
            assert(n == "WINDIR"@);
            assert("WINDIR"@.len() != "INSTALL_DIR"@.len());
            assert("WINDIR"@.len() != "STORE_USER_ID"@.len());
            assert("WINDIR"@.len() != "STEAM_USERDATA"@.len());
            assert("WINDIR"@.len() != "HOME"@.len());
            assert("WINDIR"@.len() != "XDG_DATA_HOME"@.len());
            assert("WINDIR"@.len() != "XDG_CONFIG_HOME"@.len());
        }
    }
}

} // verus!
