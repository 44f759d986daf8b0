# diffusion-factorio

A discrete diffusion model that designs working [Factorio](https://factorio.com) factories.
This repository holds two parts:

- `src/` is the library: the world a factory is laid out in, the rules it flows by, the
  lessons a model is trained on, the order in which a model's decisions are committed,
  and the ways in which factories are graded, drawn and exported. All of it is verified
  with [Verus](https://github.com/verus-lang/verus): every function has a contract, and
  the contracts are proved.
- `app/` is the program around it: the network and its training on
  [`burn`](https://burn.dev), floating-point rates, files, sockets, JSON and the command
  line.

## The library

| Module | What it is |
|---|---|
| `world` | cells, grids, footprints, and the 57 cells whose channels agree |
| `sim` | which items reach which entities, and whether any sink is supplied |
| `throughput` | who feeds whom, what a source can reach, and the order in which rates are worked out |
| `factory_gen` | nine families of generated lessons, each a working factory with parts to blank |
| `random` | reproducible draws from the ChaCha stream of a seed |
| `train` | the curriculum: batches, the frozen validation corpus, grouping by shape and family |
| `sample` | decoding a factory round by round, the surest cells first |
| `best_of_n` | ranking several draws for one task |
| `metrics` | counts over reconstructed factories |
| `data` | grids as category ids and back |
| `task_space` | keys by which tasks, answers and layouts are told apart |
| `textual`, `viewer` | factories as text and as SVG |
| `blueprint` | factories as Factorio blueprints and exchange strings |
| `serve` | tasks painted by hand, and the requests they arrive in |
| `observability` | the cards of a report |
| `text` | writing text piece by piece |

What holds of the library as a whole is stated in public proof functions whose names
start with `law_`; the rest is in the contracts of the functions themselves. A few of
the things proved:

- every generated lesson is a well-formed factory that delivers, also along the plan on
  which its rates are worked out; every inserter of it pushes into something, every source
  and sink is protected, and nothing that may be blanked is one;
- wherever the plan delivers to a sink, `item_reaches_sink` holds;
- the families with several right answers show nothing of the answer in the task;
- a route is the shortest one over free tiles;
- `item_reaches_sink` holds exactly where some sink is supplied with an item it accepts;
- a committed cell is never changed, and a finished factory is decoded throughout;
- the winner among several draws never delivers less than the first.

Calls into other crates are few, and each stands behind one function whose contract says
what is taken for granted: the random draws (`rand`, `rand_chacha`) in `random`, and the
compression and encoding of blueprints (`flate2`, `base64`) in `blueprint::exchange`.

## The program

```text
gen-data     print generated lessons
train        train a denoiser and save a checkpoint
sample       rebuild blanked factories and report on them
serve        pose tasks by hand in a browser
gallery      draw every lesson family on one page
task-space   count the tasks and answers of every family
```

Rates are floating point, so they are worked out in `app/` on the plan that
`throughput::flow_plan` makes, and handed to the library as integers in the same order.
