-- The tables of a vault store. The functions path_is_valid, path_normalize,
-- excise, verify_excision, retain, verify_note and verify_history are those of the
-- library and of app/, and have to be declared beforehand.

CREATE FUNCTION pgmind.raise_error(code text, message text, detail text)
RETURNS void LANGUAGE plpgsql
SET search_path = pg_catalog, pg_temp
AS $fn$
BEGIN
  RAISE EXCEPTION USING ERRCODE = code, MESSAGE = message, DETAIL = detail;
END
$fn$;
REVOKE ALL ON FUNCTION pgmind.raise_error(text, text, text) FROM PUBLIC;

CREATE TYPE pgmind.block_kind AS ENUM
  ('heading','paragraph','list_item','code_block','table','thematic_break','html_block');
CREATE TYPE pgmind.edge_kind AS ENUM ('wikilink','transclusion','blockref','mdlink');
CREATE TYPE pgmind.op_result AS (revision uuid, block_ids uuid[]);

CREATE TABLE pgmind.vault (
  id          uuid PRIMARY KEY,
  name        text NOT NULL UNIQUE CHECK (pgmind.path_is_valid(name)),
  description text,
  created_at  timestamptz NOT NULL DEFAULT now()
);

INSERT INTO pgmind.vault (id, name, description)
VALUES ('00000000-0000-0000-0000-000000000000', 'default',
        'The vault a session uses when pgmind.vault_id is unset.');

CREATE TABLE pgmind.note (
  id            uuid PRIMARY KEY,
  vault_id      uuid NOT NULL DEFAULT '00000000-0000-0000-0000-000000000000'
                  REFERENCES pgmind.vault(id),
  path          text NOT NULL CHECK (pgmind.path_is_valid(path)),
  basename      text GENERATED ALWAYS AS (regexp_replace(path, '^.*/', '')) STORED,
  properties    jsonb NOT NULL DEFAULT '{}'::jsonb,
  title         text,
  description   text GENERATED ALWAYS AS (properties->>'description') STORED,
  preamble      text NOT NULL DEFAULT '',
  head_revision uuid NOT NULL,
  created_at    timestamptz NOT NULL DEFAULT now(),
  tombstoned_at timestamptz,
  history_floor bigint NOT NULL DEFAULT 0
);

CREATE TABLE pgmind.revision (
  id         uuid PRIMARY KEY,
  vault_id   uuid NOT NULL,
  note_id    uuid NOT NULL REFERENCES pgmind.note(id) ON DELETE CASCADE,
  parent     uuid REFERENCES pgmind.revision(id),
  author     text NOT NULL DEFAULT current_user,
  source     text NOT NULL DEFAULT 'api' CHECK (source IN ('api','sync','rebind')),
  message    text,
  meta       jsonb NOT NULL DEFAULT '{}'::jsonb,
  created_at timestamptz NOT NULL DEFAULT now(),
  seq        bigint NOT NULL,
  verb       text NOT NULL CHECK (verb IN
               ('write','insert_blocks','update_block','move_block','split_block',
                'merge_blocks','append_to_section','delete_note','undelete_note',
                'move_note','excise','retain')),
  UNIQUE (note_id, seq)
);

CREATE TABLE pgmind.tile (
  note_id  uuid NOT NULL REFERENCES pgmind.note(id) ON DELETE CASCADE,
  vault_id uuid NOT NULL,
  ord      int4 NOT NULL,
  raw      text NOT NULL,
  PRIMARY KEY (note_id, ord) DEFERRABLE INITIALLY DEFERRED
);

CREATE TABLE pgmind.block (
  id            uuid PRIMARY KEY,
  note_id       uuid NOT NULL REFERENCES pgmind.note(id) ON DELETE CASCADE,
  vault_id      uuid NOT NULL,
  ord           int4 NOT NULL,
  parent_block  uuid REFERENCES pgmind.block(id),
  kind          pgmind.block_kind NOT NULL,
  heading_path  text[] NOT NULL DEFAULT '{}',
  content       text NOT NULL,
  content_hash  bytea NOT NULL CHECK (octet_length(content_hash) = 32),
  block_ref_id  text,
  tile_ord      int4 NOT NULL,
  start_in_tile int4 NOT NULL CHECK (start_in_tile >= 0),
  end_in_tile   int4 NOT NULL CHECK (end_in_tile >= start_in_tile),
  attrs         jsonb NOT NULL DEFAULT '{}'::jsonb,
  created_at    timestamptz NOT NULL DEFAULT now(),
  CONSTRAINT block_note_ord UNIQUE (note_id, ord) DEFERRABLE INITIALLY DEFERRED
);

CREATE TABLE pgmind.edge (
  id            bigint GENERATED ALWAYS AS IDENTITY PRIMARY KEY,
  vault_id      uuid NOT NULL,
  src_note      uuid NOT NULL REFERENCES pgmind.note(id) ON DELETE CASCADE,
  src_block     uuid NOT NULL REFERENCES pgmind.block(id) ON DELETE CASCADE,
  kind          pgmind.edge_kind NOT NULL,
  dst_path      text NOT NULL,
  dst_heading   text,
  dst_block_ref text,
  alias         text,
  dst_note      uuid REFERENCES pgmind.note(id),
  resolved_via  text CHECK (resolved_via IN ('exact','basename')),
  dangling_reason text CHECK (dangling_reason IN ('missing','ambiguous','invalid')),
  CHECK ((dst_note IS NULL) = (dangling_reason IS NOT NULL)),
  CHECK ((dst_note IS NULL) = (resolved_via IS NULL))
);

CREATE TABLE pgmind.tag (
  id       bigint GENERATED ALWAYS AS IDENTITY PRIMARY KEY,
  vault_id uuid NOT NULL,
  note_id  uuid NOT NULL REFERENCES pgmind.note(id) ON DELETE CASCADE,
  block_id uuid REFERENCES pgmind.block(id) ON DELETE CASCADE,
  tag      text NOT NULL
);

CREATE TABLE pgmind.note_revision (
  revision_id   uuid PRIMARY KEY REFERENCES pgmind.revision(id),
  note_id       uuid NOT NULL REFERENCES pgmind.note(id) ON DELETE CASCADE,
  vault_id      uuid NOT NULL,
  seq           bigint NOT NULL,
  prev_path     text,
  prev_preamble text,
  prev_props    jsonb,
  tile_ops      int4[] NOT NULL DEFAULT '{}',  tile_payload text[] NOT NULL DEFAULT '{}',
  id_ops        int4[] NOT NULL DEFAULT '{}',  id_payload   uuid[] NOT NULL DEFAULT '{}',
  place_idx     int4[] NOT NULL DEFAULT '{}', place_prev   int4[] NOT NULL DEFAULT '{}',
  head_idx      int4[] NOT NULL DEFAULT '{}', head_prev    jsonb NOT NULL DEFAULT '[]'::jsonb,
  UNIQUE (note_id, seq)
);

CREATE TABLE pgmind.block_revision (
  note_id           uuid NOT NULL REFERENCES pgmind.note(id) ON DELETE CASCADE,
  block_id          uuid NOT NULL,
  seq               bigint NOT NULL,
  vault_id          uuid NOT NULL,
  existed           boolean NOT NULL,
  redacted          boolean NOT NULL DEFAULT false,
  prev_kind         pgmind.block_kind,
  prev_content      text,
  prev_content_hash bytea CHECK (prev_content_hash IS NULL OR octet_length(prev_content_hash) = 32),
  prev_block_ref_id text,
  prev_attrs        jsonb,
  prev_parent_block uuid,
  confidence        real,
  bind              text CHECK (bind IN ('mint','ref','hash','carry','rebind','remove')),
  PRIMARY KEY (note_id, block_id, seq)
);

CREATE TABLE pgmind.note_frame (
  note_id    uuid NOT NULL REFERENCES pgmind.note(id) ON DELETE CASCADE,
  seq        bigint NOT NULL,
  vault_id   uuid NOT NULL,
  path       text NOT NULL,
  preamble   text NOT NULL,
  props      jsonb NOT NULL,
  tiles      text[] NOT NULL,
  block_ids  uuid[] NOT NULL,
  kinds      text[] NOT NULL,
  contents   text[] NOT NULL,
  head_paths jsonb NOT NULL,
  parents    uuid[] NOT NULL,
  block_refs text[] NOT NULL,
  attrs      jsonb NOT NULL,
  placement  int4[] NOT NULL,
  PRIMARY KEY (note_id, seq)
);

CREATE TABLE pgmind.excision_log (
  id           uuid PRIMARY KEY,
  vault_id     uuid NOT NULL,
  requested_at timestamptz NOT NULL DEFAULT now(),
  requested_by text NOT NULL DEFAULT current_user,
  reason       text NOT NULL,
  target_kind  text NOT NULL CHECK (target_kind IN ('note','block','revision','before','literal')),
  scope        jsonb NOT NULL DEFAULT '{}'::jsonb,
  escalations  jsonb NOT NULL DEFAULT '[]'::jsonb,
  verified_at  timestamptz,
  survivors    int4
);

CREATE TABLE pgmind.excision_replay (
  excision_id uuid PRIMARY KEY REFERENCES pgmind.excision_log(id) ON DELETE CASCADE,
  target      jsonb NOT NULL
);

CREATE FUNCTION pgmind.search_vector(content text) RETURNS tsvector
  LANGUAGE sql IMMUTABLE PARALLEL SAFE STRICT
  AS $fn$ SELECT to_tsvector('english', left($1, 100000)) $fn$;

CREATE UNIQUE INDEX note_live_path ON pgmind.note (vault_id, path) WHERE tombstoned_at IS NULL;
CREATE INDEX note_basename    ON pgmind.note (vault_id, basename) WHERE tombstoned_at IS NULL;
CREATE INDEX note_path_prefix ON pgmind.note (vault_id, path text_pattern_ops);
CREATE INDEX block_note_hash  ON pgmind.block (note_id, content_hash);
CREATE INDEX block_note_ref   ON pgmind.block (note_id, block_ref_id) WHERE block_ref_id IS NOT NULL;
CREATE INDEX block_parent     ON pgmind.block (parent_block) WHERE parent_block IS NOT NULL;

CREATE INDEX block_fts        ON pgmind.block USING gin (pgmind.search_vector(content));
CREATE INDEX edge_src         ON pgmind.edge (src_note);
CREATE INDEX edge_src_block   ON pgmind.edge (src_block);
CREATE INDEX edge_dst         ON pgmind.edge (dst_note) WHERE dst_note IS NOT NULL;
CREATE INDEX edge_path        ON pgmind.edge (vault_id, dst_path);
CREATE INDEX tag_lookup       ON pgmind.tag (vault_id, lower(tag));
CREATE INDEX tag_note         ON pgmind.tag (note_id);

CREATE INDEX tag_note_lookup  ON pgmind.tag (note_id, lower(tag));
CREATE INDEX tag_block        ON pgmind.tag (block_id) WHERE block_id IS NOT NULL;
CREATE INDEX revision_note    ON pgmind.revision (note_id, created_at);

CREATE INDEX revision_parent  ON pgmind.revision (parent) WHERE parent IS NOT NULL;
CREATE INDEX note_revision_note  ON pgmind.note_revision (note_id, seq DESC);
CREATE INDEX block_revision_block ON pgmind.block_revision (block_id, seq DESC);
CREATE INDEX note_frame_note     ON pgmind.note_frame (note_id, seq DESC);
CREATE INDEX note_revision_vault ON pgmind.note_revision (vault_id);
CREATE INDEX block_revision_vault ON pgmind.block_revision (vault_id);
CREATE INDEX note_frame_vault    ON pgmind.note_frame (vault_id);

CREATE INDEX block_vault      ON pgmind.block (vault_id);
CREATE INDEX revision_vault   ON pgmind.revision (vault_id);
CREATE INDEX tile_vault       ON pgmind.tile (vault_id);

DO $lz4$
BEGIN
  BEGIN
    ALTER TABLE pgmind.tile  ALTER COLUMN raw        SET COMPRESSION lz4;
    ALTER TABLE pgmind.block ALTER COLUMN content    SET COMPRESSION lz4;
    ALTER TABLE pgmind.note  ALTER COLUMN preamble   SET COMPRESSION lz4;
    ALTER TABLE pgmind.note  ALTER COLUMN properties SET COMPRESSION lz4;
    ALTER TABLE pgmind.block ALTER COLUMN attrs      SET COMPRESSION lz4;
    ALTER TABLE pgmind.revision ALTER COLUMN meta    SET COMPRESSION lz4;
    ALTER TABLE pgmind.note_revision  ALTER COLUMN tile_payload SET COMPRESSION lz4;
    ALTER TABLE pgmind.block_revision ALTER COLUMN prev_content SET COMPRESSION lz4;
    ALTER TABLE pgmind.note_frame     ALTER COLUMN tiles        SET COMPRESSION lz4;
    ALTER TABLE pgmind.note_frame     ALTER COLUMN contents     SET COMPRESSION lz4;
  EXCEPTION WHEN feature_not_supported OR invalid_parameter_value OR undefined_object THEN
    RAISE WARNING 'pgmind: lz4 toast compression unavailable on this server; using default';
  END;
END
$lz4$;

CREATE FUNCTION pgmind.enable_vault_rls(force boolean DEFAULT false)
RETURNS TABLE (table_name text, covered boolean, detail text) LANGUAGE plpgsql
SET search_path = pg_catalog, pg_temp
AS $fn$
DECLARE t text;
BEGIN
  FOR t IN
    SELECT c.relname
      FROM pg_catalog.pg_class c
      JOIN pg_catalog.pg_namespace n ON n.oid = c.relnamespace
      JOIN pg_catalog.pg_attribute a ON a.attrelid = c.oid
     WHERE n.nspname = 'pgmind' AND c.relkind = 'r'
       AND a.attname = 'vault_id' AND a.attnum > 0 AND NOT a.attisdropped
     ORDER BY c.oid
  LOOP
    EXECUTE format('ALTER TABLE pgmind.%I ENABLE ROW LEVEL SECURITY', t);
    IF force THEN
      EXECUTE format('ALTER TABLE pgmind.%I FORCE ROW LEVEL SECURITY', t);
    END IF;
    EXECUTE format('DROP POLICY IF EXISTS vault_isolation ON pgmind.%I', t);
    EXECUTE format(
      'CREATE POLICY vault_isolation ON pgmind.%I USING '
      '(vault_id = NULLIF(current_setting(''pgmind.vault_id'', true), '''')::uuid)', t);
    table_name := t; covered := true; detail := NULL; RETURN NEXT;
  END LOOP;
  FOR t IN
    SELECT c.relname
      FROM pg_catalog.pg_class c
      JOIN pg_catalog.pg_namespace n ON n.oid = c.relnamespace
     WHERE n.nspname = 'pgmind' AND c.relkind = 'r'
       AND NOT EXISTS (SELECT 1 FROM pg_catalog.pg_attribute a
                        WHERE a.attrelid = c.oid AND a.attname = 'vault_id'
                          AND a.attnum > 0 AND NOT a.attisdropped)
     ORDER BY c.oid
  LOOP
    table_name := t; covered := false;
    detail := 'no vault_id column: this table is outside the vault boundary';
    RETURN NEXT;
  END LOOP;
END
$fn$;
REVOKE ALL ON FUNCTION pgmind.enable_vault_rls(boolean) FROM PUBLIC;

SELECT pg_catalog.pg_extension_config_dump('pgmind.vault',
       'WHERE id <> ''00000000-0000-0000-0000-000000000000''');
SELECT pg_catalog.pg_extension_config_dump('pgmind.note',     '');
SELECT pg_catalog.pg_extension_config_dump('pgmind.revision', '');
SELECT pg_catalog.pg_extension_config_dump('pgmind.tile',     '');
SELECT pg_catalog.pg_extension_config_dump('pgmind.block',    '');
SELECT pg_catalog.pg_extension_config_dump('pgmind.edge',     '');
SELECT pg_catalog.pg_extension_config_dump('pgmind.tag',      '');
SELECT pg_catalog.pg_extension_config_dump('pgmind.edge_id_seq', '');
SELECT pg_catalog.pg_extension_config_dump('pgmind.tag_id_seq',  '');

SELECT pg_catalog.pg_extension_config_dump('pgmind.note_revision',  '');
SELECT pg_catalog.pg_extension_config_dump('pgmind.block_revision', '');
SELECT pg_catalog.pg_extension_config_dump('pgmind.note_frame',     '');
SELECT pg_catalog.pg_extension_config_dump('pgmind.excision_log',   '');

REVOKE ALL ON FUNCTION pgmind.excise(jsonb, text, boolean, boolean) FROM PUBLIC;
REVOKE ALL ON FUNCTION pgmind.verify_excision(uuid) FROM PUBLIC;
REVOKE ALL ON FUNCTION pgmind.retain(bigint, boolean) FROM PUBLIC;
REVOKE ALL ON FUNCTION pgmind.verify_note(uuid) FROM PUBLIC;
REVOKE ALL ON FUNCTION pgmind.verify_history(uuid) FROM PUBLIC;
