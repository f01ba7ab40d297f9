# Rekey

Fixes text typed on the wrong keyboard layout: `ghbdtn` becomes `привет`.

The library under `src/` is verified with Verus. It holds everything that decides:

| Module | What it is about |
|---|---|
| `layout`, `tables` | ten keyboard layouts by physical key, and re-typing text from one to another |
| `retyping`, `shipped` | what can be relied on of re-typing |
| `model`, `rkm` | scoring a text as a word of a language, and the format of model files |
| `single` | single-precision arithmetic on bit patterns |
| `detect` | whether a word was typed on the wrong layout |
| `buffer` | the word before the caret |
| `engine`, `assurances`, `taps`, `reach` | whether acting is safe right now, and what can be relied on of the engine |
| `ai`, `assist` | the optional second opinion on ambiguous words |
| `hook` | what each platform calls its keys and layouts |
| `config`, `settings`, `corpus`, `input`, `text` | settings, word lists, keystrokes, and text |

The application under `app/` watches the keyboard, types, keeps files, and talks to
the network. On macOS and Windows it has a desktop shell that needs `tauri` with its
`autostart` and `opener` plugins, and on Windows the `windows` crate, in addition to
the dependencies listed in `Cargo.toml`.

The model that the second opinion comes from is named in the settings window, and
kept as `assist_model` in the settings file; without it none is asked for.
