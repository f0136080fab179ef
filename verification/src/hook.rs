//! The shell hooks: the bash and zsh snippets that record every executed
//! command and bind the history search to control-R.

use crate::strutil::str_eq;
use vstd::prelude::*;

verus! {

/// The shells a hook can be rendered for.
#[derive(Debug, Clone, Copy, PartialEq, Eq, Structural)]
pub enum Shell {
    Bash,
    Zsh,
}

/// A shell name the hook renderer does not know.
#[derive(Debug, Clone, PartialEq, Eq)]
pub struct UnsupportedHookShell {
    pub value: String,
}

impl Shell {
    /// Accepts exactly "bash" and "zsh".
    pub fn parse(value: &str) -> (r: Result<Shell, UnsupportedHookShell>)
        ensures
            value@ == "bash"@ ==> (r matches Ok(s) && s == Shell::Bash),
            value@ == "zsh"@ ==> (r matches Ok(s) && s == Shell::Zsh),
            value@ != "bash"@ && value@ != "zsh"@ ==> (r matches Err(e) && e.value@ == value@),
    {
        proof {
            reveal_strlit("bash");
            reveal_strlit("zsh");
            assert("bash"@.len() == 4);
            assert("zsh"@.len() == 3);
        }
        if str_eq(value, "bash") {
            Ok(Shell::Bash)
        } else if str_eq(value, "zsh") {
            Ok(Shell::Zsh)
        } else {
            Err(UnsupportedHookShell { value: value.to_owned() })
        }
    }
}

/// The bash hook, character for character.
pub open spec fn spec_bash_hook() -> Seq<char> {
    r#"# rustory (rr) bash hook
# install with: source <(rr hook --shell bash)

if [[ -n "${__RUSTORY_HOOK_INSTALLED:-}" ]]; then
  return 0
fi
__RUSTORY_HOOK_INSTALLED=1

__rustory_last_histnum=""

__rustory_precmd() {
  local exit_code=$?
  [[ -n "${RUSTORY_HOOK_DISABLE:-}" ]] && return 0

  local line
  line="$(HISTTIMEFORMAT= builtin history 1 | sed -e 's/^ *//')"

  local histnum="${line%% *}"
  local cmd="${line#* }"
  cmd="${cmd#"${cmd%%[![:space:]]*}"}"

  if [[ -z "$histnum" || -z "$cmd" ]]; then
    return 0
  fi
  if [[ "$histnum" == "$__rustory_last_histnum" ]]; then
    return 0
  fi
  __rustory_last_histnum="$histnum"

  # never record an invocation of rr itself
  case "$cmd" in
    rr|rr\ *) return 0 ;;
  esac

  ( rr record --cmd "$cmd" --cwd "$PWD" --exit-code "$exit_code" --shell "bash" >/dev/null 2>&1 ) &
}

# inject into PROMPT_COMMAND once
case ";$PROMPT_COMMAND;" in
  *";__rustory_precmd;"*) ;;
  *) PROMPT_COMMAND="__rustory_precmd${PROMPT_COMMAND:+;$PROMPT_COMMAND}" ;;
esac

__rustory_ctrl_r() {
  local limit="${RUSTORY_SEARCH_LIMIT:-100000}"
  local selected
  selected="$(rr search --limit "$limit")" || return 0
  [[ -z "$selected" ]] && return 0

  READLINE_LINE="${READLINE_LINE:0:$READLINE_POINT}$selected${READLINE_LINE:$READLINE_POINT}"
  READLINE_POINT=$(( READLINE_POINT + ${#selected} ))
}

bind -x '"\C-r":__rustory_ctrl_r'
"#@
}

/// The zsh hook, character for character.
pub open spec fn spec_zsh_hook() -> Seq<char> {
    r#"# rustory (rr) zsh hook
# install with: source <(rr hook --shell zsh)

if [[ -n "${__RUSTORY_HOOK_INSTALLED:-}" ]]; then
  return 0
fi
typeset -g __RUSTORY_HOOK_INSTALLED=1

autoload -Uz add-zsh-hook

typeset -g __rustory_last_cmd=""
typeset -g __rustory_last_start_us=""

__rustory_preexec() {
  __rustory_last_cmd="$1"
  if [[ -n "${EPOCHREALTIME:-}" ]]; then
    __rustory_last_start_us="${EPOCHREALTIME/./}"
  else
    __rustory_last_start_us=""
  fi
}

__rustory_precmd() {
  local exit_code=$?
  [[ -n "${RUSTORY_HOOK_DISABLE:-}" ]] && return 0

  local cmd="$__rustory_last_cmd"
  cmd="${cmd#"${cmd%%[![:space:]]*}"}"
  if [[ -z "$cmd" ]]; then
    return 0
  fi

  # never record an invocation of rr itself
  case "$cmd" in
  rr|rr\ *)
    __rustory_last_cmd=""
    __rustory_last_start_us=""
    return 0
  ;;
  esac

  local duration_ms=0
  if [[ -n "$__rustory_last_start_us" && -n "${EPOCHREALTIME:-}" ]]; then
    local end_us="${EPOCHREALTIME/./}"
    if [[ "$end_us" -ge "$__rustory_last_start_us" ]]; then
      duration_ms=$(( (end_us - __rustory_last_start_us) / 1000 ))
    fi
  fi

  __rustory_last_cmd=""
  __rustory_last_start_us=""

  ( rr record --cmd "$cmd" --cwd "$PWD" --exit-code "$exit_code" --duration-ms "$duration_ms" --shell "zsh" --hostname "${HOST:-}" >/dev/null 2>&1 ) &!
}

add-zsh-hook preexec __rustory_preexec
add-zsh-hook precmd __rustory_precmd

__rustory_widget_ctrl_r() {
  local limit="${RUSTORY_SEARCH_LIMIT:-100000}"
  local selected
  selected="$(rr search --limit "$limit")" || return 0
  if [[ -n "$selected" ]]; then
    LBUFFER+="$selected"
  fi
  zle redisplay
}

zle -N __rustory_ctrl_r_widget __rustory_widget_ctrl_r
bindkey '^R' __rustory_ctrl_r_widget
"#@
}

/// The hook a shell sources, rendered for that shell.
pub fn render_hook(shell: Shell) -> (r: String)
    ensures
        shell == Shell::Bash ==> r@ == spec_bash_hook(),
        shell == Shell::Zsh ==> r@ == spec_zsh_hook(),
{
    match shell {
        Shell::Bash => render_bash_hook(),
        Shell::Zsh => render_zsh_hook(),
    }
}

/// The bash side: a prompt hook that records the last history line unless
/// recording is disabled or the command invokes this tool itself, and a
/// control-R binding that inserts the search's selection.
pub fn render_bash_hook() -> (r: String)
    ensures
        r@ == spec_bash_hook(),
{
    r#"# rustory (rr) bash hook
# install with: source <(rr hook --shell bash)

if [[ -n "${__RUSTORY_HOOK_INSTALLED:-}" ]]; then
  return 0
fi
__RUSTORY_HOOK_INSTALLED=1

__rustory_last_histnum=""

__rustory_precmd() {
  local exit_code=$?
  [[ -n "${RUSTORY_HOOK_DISABLE:-}" ]] && return 0

  local line
  line="$(HISTTIMEFORMAT= builtin history 1 | sed -e 's/^ *//')"

  local histnum="${line%% *}"
  local cmd="${line#* }"
  cmd="${cmd#"${cmd%%[![:space:]]*}"}"

  if [[ -z "$histnum" || -z "$cmd" ]]; then
    return 0
  fi
  if [[ "$histnum" == "$__rustory_last_histnum" ]]; then
    return 0
  fi
  __rustory_last_histnum="$histnum"

  # never record an invocation of rr itself
  case "$cmd" in
    rr|rr\ *) return 0 ;;
  esac

  ( rr record --cmd "$cmd" --cwd "$PWD" --exit-code "$exit_code" --shell "bash" >/dev/null 2>&1 ) &
}

# inject into PROMPT_COMMAND once
case ";$PROMPT_COMMAND;" in
  *";__rustory_precmd;"*) ;;
  *) PROMPT_COMMAND="__rustory_precmd${PROMPT_COMMAND:+;$PROMPT_COMMAND}" ;;
esac

__rustory_ctrl_r() {
  local limit="${RUSTORY_SEARCH_LIMIT:-100000}"
  local selected
  selected="$(rr search --limit "$limit")" || return 0
  [[ -z "$selected" ]] && return 0

  READLINE_LINE="${READLINE_LINE:0:$READLINE_POINT}$selected${READLINE_LINE:$READLINE_POINT}"
  READLINE_POINT=$(( READLINE_POINT + ${#selected} ))
}

bind -x '"\C-r":__rustory_ctrl_r'
"#.to_owned()
}

/// The zsh side: preexec and precmd hooks that record each command with
/// its duration, under the same guards, and a control-R widget.
pub fn render_zsh_hook() -> (r: String)
    ensures
        r@ == spec_zsh_hook(),
{
    r#"# rustory (rr) zsh hook
# install with: source <(rr hook --shell zsh)

if [[ -n "${__RUSTORY_HOOK_INSTALLED:-}" ]]; then
  return 0
fi
typeset -g __RUSTORY_HOOK_INSTALLED=1

autoload -Uz add-zsh-hook

typeset -g __rustory_last_cmd=""
typeset -g __rustory_last_start_us=""

__rustory_preexec() {
  __rustory_last_cmd="$1"
  if [[ -n "${EPOCHREALTIME:-}" ]]; then
    __rustory_last_start_us="${EPOCHREALTIME/./}"
  else
    __rustory_last_start_us=""
  fi
}

__rustory_precmd() {
  local exit_code=$?
  [[ -n "${RUSTORY_HOOK_DISABLE:-}" ]] && return 0

  local cmd="$__rustory_last_cmd"
  cmd="${cmd#"${cmd%%[![:space:]]*}"}"
  if [[ -z "$cmd" ]]; then
    return 0
  fi

  # never record an invocation of rr itself
  case "$cmd" in
  rr|rr\ *)
    __rustory_last_cmd=""
    __rustory_last_start_us=""
    return 0
  ;;
  esac

  local duration_ms=0
  if [[ -n "$__rustory_last_start_us" && -n "${EPOCHREALTIME:-}" ]]; then
    local end_us="${EPOCHREALTIME/./}"
    if [[ "$end_us" -ge "$__rustory_last_start_us" ]]; then
      duration_ms=$(( (end_us - __rustory_last_start_us) / 1000 ))
    fi
  fi

  __rustory_last_cmd=""
  __rustory_last_start_us=""

  ( rr record --cmd "$cmd" --cwd "$PWD" --exit-code "$exit_code" --duration-ms "$duration_ms" --shell "zsh" --hostname "${HOST:-}" >/dev/null 2>&1 ) &!
}

add-zsh-hook preexec __rustory_preexec
add-zsh-hook precmd __rustory_precmd

__rustory_widget_ctrl_r() {
  local limit="${RUSTORY_SEARCH_LIMIT:-100000}"
  local selected
  selected="$(rr search --limit "$limit")" || return 0
  if [[ -n "$selected" ]]; then
    LBUFFER+="$selected"
  fi
  zle redisplay
}

zle -N __rustory_ctrl_r_widget __rustory_widget_ctrl_r
bindkey '^R' __rustory_ctrl_r_widget
"#.to_owned()
}

} // verus!
