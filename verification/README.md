# gdsfill

Dummy metal fill for GDSII layouts, with the geometry, the process rules and the
fill algorithms verified in Verus.

## Layout of the project

- `src/` is the verified library. `geom`, `ground`, `coverage`, `windows`,
  `area`, `overlay`, `offset`, `morph` and `touch` hold the geometry; `gds`,
  `layout`, `transform`, `path`, `flatten`, `contain` and `layer_map` the
  hierarchy; `pdk`, `config` and `context` the processes; `tiles`, `density`,
  `survey` and `chip` the measuring; `fill` the placement; `erase` the removal.
- `app/` is the command line: files, YAML, threads and messages.
- `tests/` runs the library with its outside crates.

## Units

Coordinates are integers in half database units, so that the centre of a shape
on the database grid is exact. The corners of paths are found in finer units and
then rounded to these. Areas are doubled. Lengths of processes are
nanometres, densities millionths of a percent.

## Commands

```text
gdsfill density --process gf180mcuD <my-layout.gds>
gdsfill fill    --process gf180mcuD <my-layout.gds> [--dry-run]
gdsfill erase   --process gf180mcuD <my-layout.gds>
```

`--config-file` restricts a run to the layers of a YAML file and sets their
density, deviation and algorithm. `--verbose` prints the table of tiles.

The tables of `gf180mcuA` to `gf180mcuD` are built in. For `ihp-sg13g2` and
`ihp-sg13cmos5l` the keep-out rules are built in and the layer table is read from
the YAML file given with `--layer-table`. It lists every layer of the process
once, each in this form:

```yaml
db_unit_um: 0.001
tile_width_um: 800
grid_dbu: 5
fill_boundary_layer: [39, 0]
density_boundary_layer: [39, 4]
layers:
  Metal1:
    gds_layer: 8
    drawing_datatype: 0
    fill_datatype: 22
    nofill_datatype: 23
    default_density: 60
    default_deviation: 5
    tile_width_um: 200
    merge_for_density: true
    algorithms:
      - square: { min_width: 1.0, max_width: 5.0, min_space: 0.42, max_space: 4.0 }
```
