//! Where an app's config file lives. Every app in the family resolves its config the same way and
//! differs only in its environment variable and its `~/.config` subdirectory, so the mechanism
//! lives here and those two strings are parameters.
use vstd::prelude::*;
use crate::pathname::{join, path_join};

verus! {

/// The current user's home directory, from `dirs::home_dir` (`$HOME` when set and non-empty,
/// else the password database entry), as a string (non-UTF-8 bytes replaced).
///
/// The result depends on the environment; all that holds of every outcome, per `dirs`'s source,
/// is that a directory it returns is not empty.
#[verifier::external_body]
pub(crate) fn home_dir() -> (r: Option<String>)
    ensures
        r matches Some(h) ==> h@.len() > 0,
{
    match dirs::home_dir() {
        Some(p) => Some(p.to_string_lossy().into_owned()),
        None => None,
    }
}

/// The view of an optional string (owned or borrowed).
pub open spec fn opt_view<T: View<V = Seq<char>>>(o: Option<T>) -> Option<Seq<char>> {
    match o {
        Some(s) => Some(s@),
        None => None,
    }
}

/// The home directory, or `"."` when there is none.
pub open spec fn home_or_dot(home: Option<Seq<char>>) -> Seq<char> {
    match home {
        Some(h) => h,
        None => seq!['.'],
    }
}

/// `<home>/.config/<app_dir>/config.toml`, with `"."` standing in for a missing home.
pub open spec fn config_path_in(home: Option<Seq<char>>, app_dir: Seq<char>) -> Seq<char> {
    path_join(path_join(path_join(home_or_dot(home), ".config"@), app_dir), "config.toml"@)
}

/// A home directory as `home_dir` can report it: absent, or not empty.
pub open spec fn possible_home(home: Option<Seq<char>>) -> bool {
    home matches Some(h) ==> h.len() > 0
}

/// `<home>/.config/<app_dir>/config.toml` for a given home directory (`"."` when `None`).
///
/// Deliberately `~/.config`, not the platform config directory (which on macOS is
/// `~/Library/Application Support`).
pub fn config_path_for_home(home: Option<&str>, app_dir: &str) -> (r: String)
    ensures
        r@ == config_path_in(opt_view(home), app_dir@),
{
    let base = match home {
        Some(h) => h.to_owned(),
        None => {
            let dot = ".";
            proof {
                reveal_strlit(".");
            }
            dot.to_owned()
        },
    };
    proof {
        assert(base@ == home_or_dot(opt_view(home)));
    }
    let a = join(base.as_str(), ".config");
    let b = join(a.as_str(), app_dir);
    join(b.as_str(), "config.toml")
}

/// `~/.config/<app_dir>/config.toml` for the current user (`./.config/...` without a home).
pub fn default_config_path(app_dir: &str) -> (r: String)
    ensures
        exists|home: Option<Seq<char>>|
            possible_home(home) && r@ == #[trigger] config_path_in(home, app_dir@),
{
    let home = home_dir();
    match home {
        Some(h) => {
            let hs = h.as_str();
            let r = config_path_for_home(Some(hs), app_dir);
            proof {
                assert(opt_view(Some(hs)) == Some(h@));
            }
            r
        },
        None => config_path_for_home(None, app_dir),
    }
}

/// The config to load: `env_value` (the app's environment variable) when it is set **and
/// non-empty**, else [`default_config_path`]. A set-but-empty variable falls through to the
/// default rather than naming the empty path.
pub fn resolve_config_path(env_value: Option<&str>, app_dir: &str) -> (r: String)
    ensures
        env_value matches Some(v) && v@.len() > 0 ==> r@ == env_value.unwrap()@,
        !(env_value matches Some(v) && v@.len() > 0) ==> exists|home: Option<Seq<char>>|
            possible_home(home) && r@ == #[trigger] config_path_in(home, app_dir@),
{
    if let Some(p) = env_value {
        if !p.is_empty() {
            return p.to_owned();
        }
    }
    default_config_path(app_dir)
}

/// Whatever the home directory, a config path ends in `.config/<app_dir>/config.toml` when
/// `app_dir` is a non-empty relative path with no trailing separator.
pub proof fn lemma_config_path_suffix(home: Option<Seq<char>>, app_dir: Seq<char>)
    requires
        app_dir.len() > 0,
        app_dir[0] != '/',
        app_dir.last() != '/',
    ensures
        (".config/"@ + app_dir + "/config.toml"@).is_suffix_of(config_path_in(home, app_dir)),
{
    reveal_strlit(".config");
    reveal_strlit(".config/");
    reveal_strlit("config.toml");
    reveal_strlit("/config.toml");
    let base = home_or_dot(home);
    let a = path_join(base, ".config"@);
    assert(".config"@[0] == '.');
    assert(a.len() >= 7 && a.subrange(a.len() - 7, a.len() as int) =~= ".config"@) by {
        if base.len() > 0 && base.last() != '/' {
            assert(a =~= base + seq!['/'] + ".config"@);
        } else {
            assert(a =~= base + ".config"@);
        }
    }
    assert(a.last() == 'g');
    let b = path_join(a, app_dir);
    assert(b =~= a + seq!['/'] + app_dir);
    assert(b.last() == app_dir.last());
    assert("config.toml"@[0] == 'c');
    let c = path_join(b, "config.toml"@);
    assert(c =~= b + seq!['/'] + "config.toml"@);
    let suffix = ".config/"@ + app_dir + "/config.toml"@;
    let k = c.len() - suffix.len();
    assert(c =~= a.subrange(0, a.len() - 7) + suffix);
    assert(c.subrange(k, c.len() as int) =~= suffix);
}


/// The config path lies under the home directory it is given: with a home `h` and a relative
/// `app_dir`, the path begins with `h` and goes on below it, so it is never the `"."`-based path
/// of a missing home unless `h` itself begins with `"."`.
pub proof fn lemma_config_path_under_home(h: Seq<char>, app_dir: Seq<char>)
    requires
        h.len() > 0,
        app_dir.len() > 0,
        app_dir[0] != '/',
    ensures
        h.is_prefix_of(config_path_in(Some(h), app_dir)),
        config_path_in(Some(h), app_dir).len() > h.len(),
{
    reveal_strlit(".config");
    reveal_strlit("config.toml");
    assert(".config"@[0] == '.');
    assert("config.toml"@[0] == 'c');
    let a = path_join(h, ".config"@);
    let b = path_join(a, app_dir);
    let c = path_join(b, "config.toml"@);
    assert(a.len() > 0);
    assert(b =~= a + seq!['/'] + app_dir || b =~= a + app_dir);
    assert(b.len() > 0);
    assert(c =~= b + seq!['/'] + "config.toml"@ || c =~= b + "config.toml"@);
    if h.last() == '/' {
        assert(a =~= h + ".config"@);
    } else {
        assert(a =~= h + seq!['/'] + ".config"@);
    }
    assert(h.is_prefix_of(a)) by {
        assert(a.subrange(0, h.len() as int) =~= h);
    }
    assert(a.is_prefix_of(b)) by {
        assert(b.subrange(0, a.len() as int) =~= a);
    }
    assert(b.is_prefix_of(c)) by {
        assert(c.subrange(0, b.len() as int) =~= b);
    }
    assert(c.subrange(0, h.len() as int) =~= h) by {
        assert(c.subrange(0, h.len() as int) =~= b.subrange(0, h.len() as int));
        assert(b.subrange(0, h.len() as int) =~= a.subrange(0, h.len() as int));
    }
}

}
