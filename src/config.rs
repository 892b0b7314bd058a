//! The settings that the task operations read, and the choice of where
//! they come from.

use crate::document::{lines_of, push_line};
use vstd::prelude::*;

verus! {

/// All settings, in three groups.
pub struct Config {
    pub task_management: TaskManagementConfig,
    pub display: DisplayConfig,
    pub file_paths: FilePathsConfig,
}

/// How tasks are added and how the document is kept in shape.
pub struct TaskManagementConfig {
    pub default_priority: String,
    pub auto_format: bool,
    pub allow_incomplete_in_archive: bool,
}

/// How the task list is shown.
pub struct DisplayConfig {
    pub show_completed_by_default: bool,
}

/// Where the task document is.
pub struct FilePathsConfig {
    pub task_file: String,
}

pub open spec fn medium_name() -> Seq<char> {
    seq!['m', 'e', 'd', 'i', 'u', 'm']
}

pub open spec fn default_task_file() -> Seq<char> {
    seq!['t', 'a', 's', 'k', 's', '.', 'm', 'd']
}

/// The settings used where no file gives any.
pub open spec fn is_default_config(c: Config) -> bool {
    &&& c.task_management.default_priority@ == medium_name()
    &&& c.task_management.auto_format
    &&& !c.task_management.allow_incomplete_in_archive
    &&& !c.display.show_completed_by_default
    &&& c.file_paths.task_file@ == default_task_file()
}

impl Default for Config {
    fn default() -> (r: Config)
        ensures
            is_default_config(r),
    {
        proof {
            reveal_strlit("medium");
            reveal_strlit("tasks.md");
            assert("medium"@ =~= medium_name());
            assert("tasks.md"@ =~= default_task_file());
        }
        Config {
            task_management: TaskManagementConfig {
                default_priority: String::from_str("medium"),
                auto_format: true,
                allow_incomplete_in_archive: false,
            },
            display: DisplayConfig { show_completed_by_default: false },
            file_paths: FilePathsConfig { task_file: String::from_str("tasks.md") },
        }
    }
}

/// Every setting of `base` is replaced by the one of `override_config`.
pub fn merge_configs(base: &mut Config, override_config: Config)
    ensures
        *final(base) == override_config,
{
    base.task_management = override_config.task_management;
    base.display = override_config.display;
    base.file_paths = override_config.file_paths;
}

/// The first settings that were found, in order of precedence.
pub open spec fn first_config(s: Seq<Option<Config>>) -> Option<Config>
    decreases s.len(),
{
    if s.len() == 0 {
        None
    } else {
        match s[0] {
            Some(c) => Some(c),
            None => first_config(s.drop_first()),
        }
    }
}

/// The settings in force: those of the first candidate that was found,
/// most important first, or the defaults when none was.
pub fn resolve_config(candidates: Vec<Option<Config>>) -> (r: Config)
    ensures
        match first_config(candidates@) {
            Some(c) => r == c,
            None => is_default_config(r),
        },
{
    let ghost s = candidates@;
    let mut rest = candidates;
    let mut config = Config::default();
    while rest.len() > 0
        invariant
            rest@ == s.take(rest.len() as int),
            rest.len() <= s.len(),
            match first_config(s.skip(rest.len() as int)) {
                Some(c) => config == c,
                None => is_default_config(config),
            },
        decreases rest.len(),
    {
        let ghost i = rest.len() as int;
        assert(s.skip(i - 1).drop_first() =~= s.skip(i));
        assert(s.skip(i - 1)[0] == s[i - 1]);
        let next = rest.pop().unwrap();
        assert(rest@ =~= s.take(i - 1));
        if let Some(c) = next {
            config = c;
        }
    }
    assert(s.skip(0) =~= s);
    config
}

/// A relative path name added to a directory, with one separator between.
pub open spec fn joined(dir: Seq<char>, name: Seq<char>) -> Seq<char> {
    if dir.len() == 0 {
        name
    } else if dir.last() == '/' {
        dir + name
    } else {
        dir + seq!['/'] + name
    }
}

/// A relative path name added to a directory.
pub fn join_path(dir: &str, name: &str) -> (r: String)
    ensures
        r@ == joined(dir@, name@),
{
    proof {
        reveal_strlit("/");
    }
    let mut r = String::from_str(dir);
    if dir.is_empty() {
        return String::from_str(name);
    }
    if !ends_with_slash(dir) {
        r.append("/");
    }
    r.append(name);
    r
}

/// Relies on str::ends_with: whether the last character is `/`.
#[verifier::external_body]
fn ends_with_slash(s: &str) -> (r: bool)
    ensures
        r == (s@.len() > 0 && s@.last() == '/'),
{
    s.ends_with('/')
}

pub open spec fn local_config_name() -> Seq<char> {
    seq!['m', 'd', '-', 't', 'a', 's', 'k', '.', 't', 'o', 'm', 'l']
}

pub open spec fn global_config_name() -> Seq<char> {
    seq!['c', 'o', 'n', 'f', 'i', 'g', '.', 't', 'o', 'm', 'l']
}

/// Where settings are looked for, most important first: the local file,
/// the one at the project root when that is another path, and the global one.
pub open spec fn search_paths(project_root: Option<Seq<char>>, config_dir: Seq<char>) -> Seq<
    Seq<char>,
> {
    let global = joined(config_dir, global_config_name());
    match project_root {
        Some(root) => if joined(root, local_config_name()) != local_config_name() {
            seq![local_config_name(), joined(root, local_config_name()), global]
        } else {
            seq![local_config_name(), global]
        },
        None => seq![local_config_name(), global],
    }
}

/// The settings files to look for, most important first.
pub fn get_config_search_paths(project_root: Option<String>, config_dir: String) -> (r: Vec<
    String,
>)
    ensures
        lines_of(r@) == search_paths(
            match project_root {
                Some(p) => Some(p@),
                None => None,
            },
            config_dir@,
        ),
{
    proof {
        reveal_strlit("md-task.toml");
        reveal_strlit("config.toml");
        assert("md-task.toml"@ =~= local_config_name());
        assert("config.toml"@ =~= global_config_name());
    }
    let mut paths: Vec<String> = Vec::new();
    let local = String::from_str("md-task.toml");
    push_line(&mut paths, String::from_str("md-task.toml"));
    if let Some(root) = project_root {
        let project_config = join_path(root.as_str(), "md-task.toml");
        if project_config != local {
            push_line(&mut paths, project_config);
        }
    }
    push_line(&mut paths, join_path(config_dir.as_str(), "config.toml"));
    proof {
        assert(lines_of(paths@) =~= search_paths(
            match project_root {
                Some(p) => Some(p@),
                None => None,
            },
            config_dir@,
        ));
    }
    paths
}

/// Relies on dirs::home_dir: the user's home directory, when one is known.
#[verifier::external_body]
fn home_dir() -> (r: Option<String>) {
    dirs::home_dir().map(|p| p.to_string_lossy().into_owned())
}

pub open spec fn dev_config_dir() -> Seq<char> {
    seq!['.', '/', 'd', 'e', 'v', '-', 'c', 'o', 'n', 'f', 'i', 'g']
}

pub open spec fn app_dir_name() -> Seq<char> {
    seq!['m', 'd', '-', 't', 'a', 's', 'k']
}

pub open spec fn dot_config() -> Seq<char> {
    seq!['.', 'c', 'o', 'n', 'f', 'i', 'g']
}

/// The directory of the global settings: a fixed one in development, else
/// under the configuration home when it is given, else under the user's
/// home directory, else the current one.
pub fn config_dir(dev: bool, xdg_config_home: Option<String>) -> (r: String)
    ensures
        dev ==> r@ == dev_config_dir(),
        !dev ==> match xdg_config_home {
            Some(d) => r@ == joined(d@, app_dir_name()),
            None => r@ == seq!['.'] || exists|h: Seq<char>|
                r@ == joined(joined(h, dot_config()), app_dir_name()),
        },
{
    proof {
        reveal_strlit("./dev-config");
        reveal_strlit("md-task");
        reveal_strlit(".config");
        reveal_strlit(".");
        assert("./dev-config"@ =~= dev_config_dir());
        assert("md-task"@ =~= app_dir_name());
        assert(".config"@ =~= dot_config());
        assert("."@ =~= seq!['.']);
    }
    if dev {
        return String::from_str("./dev-config");
    }
    match xdg_config_home {
        Some(d) => join_path(d.as_str(), "md-task"),
        None => match home_dir() {
            Some(h) => {
                let base = join_path(h.as_str(), ".config");
                join_path(base.as_str(), "md-task")
            },
            None => String::from_str("."),
        },
    }
}

} // verus!
