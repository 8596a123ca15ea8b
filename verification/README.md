# btdua

A sampling disk usage analyzer for btrfs with an ncdu-style TUI. It picks random
points in the filesystem's allocated space, asks btrfs who owns them, and shows
what the owners' directories hold; the longer it runs, the closer the estimate.

## Layout

`src/` is the library, verified with Verus:

| Module    | What it holds |
|-----------|---------------|
| `tree`    | The tree of sampled paths and its counters: adding samples, removing entries |
| `app`     | The state of the interface, and what a key does to it |
| `ui`      | What stands on the screen: lines, the table, dialogs |
| `sampler` | Weighted picks of bytes, and how a byte resolves into owner paths |
| `btrfs`   | The bytes of the kernel's requests and answers |
| `fsat`    | Paths below the top level, and how a directory tree is deleted |
| `fsopen`  | Which mount a path belongs to |
| `export`  | Saved sessions |
| `actions` | Exact sizes |
| `session` | How long and with how many threads to sample |
| `stats`, `rng` | Sizes and counts as text; random numbers |
| `rational`, `bignat`, `sorting`, `text` | Exact fractions, large naturals, sorting, strings |

Each module states what its functions do over a mathematical model. What holds of
several functions together is stated by the proof functions named `law_...`.

`app/` is the program around it: the command line, ioctls and files, threads,
floating-point estimates, JSON, and drawing with ratatui. `tests/` runs the library.

## Usage

```sh
sudo btdua /                       # analyze the filesystem containing /
sudo btdua / --export out.json     # sample 10 s without UI, save results
sudo btdua / --export out.json --samples 1000000
btdua --import out.json            # browse saved results (no root needed)
```
