# gaze

The logic of gaze, a keyboard-driven browser around WebKitGTK, as a
library whose behaviour is stated in contracts and proved by Verus.

## Layout

- `src/` — the verified library.
  - `tabs.rs`: tabs and tab groups; a group's tabs stay one run, every
    group a tab names exists, folding, moving and closing.
  - `bar.rs`: what the tab bar shows, with folded groups and empty ones.
  - `keys.rs`: the default bindings, your changes to them, what a key
    press does, and the key list of the help page.
  - `commands.rs`: the command line: splitting, completion offers,
    arguments, and the help cards.
  - `dispatch.rs`: what a command line does, as an action for the window.
  - `events.rs`: what a key press does in each mode, and what a page's
    message does.
  - `history.rs`: visits folded by URL, latest first, at most five
    thousand; matching typed words against history and bookmarks.
  - `bookmarks.rs`: the bookmark file, adding, removing, and reading
    the HTML that Firefox exports.
  - `passwords.rs`: the sealed login store (Argon2id and
    ChaCha20-Poly1305 through their crates), CSV import, and which login
    fills a site.
  - `config.rs`: what you type as a URI, paths under home, the sites
    where dark pages differ from the default (the name a page is filed
    under, turning a site the other way), the `dark:` line of the config,
    and which pages go to the video player.
  - `adblock.rs`: the hosts list as a WebKit content filter.
  - `text.rs`, `seqs.rs`, `entries.rs`: strings, sequences and sorted
    key–value lists shared by the others.
- `tests/` — tests of the library on concrete values.
- `app/` — the program: the GTK window, WebKit views, files, JavaScript
  handed to the page, and the event loop that calls the library.
