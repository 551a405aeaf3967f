# dedup_pictures

Finds duplicate and visually similar pictures, on this machine or on a Synology NAS, and removes the
superfluous ones: after a review in the browser, or at once with `--delete`. Without either it only
reports.

`src/` is the library. It does no input or output. Its functions are verified with Verus:

* `dhash`, `digest`: the perceptual hash of a picture and the exact hash of a file.
* `union_find`, `grouping`, `similar`, `duplicates`: which files belong together.
* `cache`: the hashes that are kept from one run to the next.
* `order`, `keep`: which file of a group is kept, and the order in which groups are shown.
* `size`, `text`, `output`, `report`, `html`: what is printed and the page that is reviewed.
* `server`: how the requests of the page are answered.
* `remove`: which files are removed, in which batches, and what is said of it.
* `cli`, `nas`, `entry`: the command line, the address of a NAS, the files of a scan.
* `flow`, `run`, `history`: a run as a state machine, its steps, and what holds of every run.

`app/` is the program around it: it walks directories, reads and removes files, talks to the browser
and to the NAS, and prints. It drives a `Run` by doing what the run asks for and telling it what came
of it.

The proof functions whose names start with `law_` state what holds of the library as a whole: for
example that nothing is removed unless the options ask for it or files were selected in a review,
that similar pictures come out in one group, and that a second run over the
same files hashes only those that the first one could not.

A few functions are trusted, not proved. They wrap calls into `image`, `sha2`, `serde_json` and the
standard library, and their comments say what is claimed of each.
